//! The tree of block roots, kept as a tree of days over one tree of blocks per day.

use super::root_tracker::compute_anchor_from_path;
use super::{BLOCKS_PER_DAY, BLOCK_IN_DAY_DEPTH, DAY_DEPTH};
use crate::merkle::{
    ancestor, climb, compute_zero_hashes, law_path_leads_to_root, leaf_of, lemma_node_empty,
    lemma_node_same, other_child, sibling_path, tree_root, zero_hash, IncrementalMerkleTree,
};
use crate::types::{zero_word, B256};
use std::collections::HashMap;
use vstd::arithmetic::div_mod::{lemma_div_denominator, lemma_hoist_over_denominator};
use vstd::arithmetic::power2::{lemma2_to64, lemma_pow2_adds, lemma_pow2_pos, pow2};
use vstd::prelude::*;

verus! {

broadcast use vstd::std_specs::hash::group_hash_axioms;

/// The number under which a block is kept.
pub open spec fn block_key(day: int, block_in_day: int) -> u32 {
    (day * 65536 + block_in_day) as u32
}

/// The leaves of the tree of a day's blocks.
pub open spec fn day_leaves(blocks: Map<u32, (B256, u32)>, day: u16) -> Map<int, B256> {
    Map::new(
        |i: int| 0 <= i < 65536 && blocks.contains_key(block_key(day as int, i)),
        |i: int| blocks[block_key(day as int, i)].0,
    )
}

/// The root of the tree of a day's blocks.
pub open spec fn day_root_of(blocks: Map<u32, (B256, u32)>, day: u16) -> B256 {
    tree_root(day_leaves(blocks, day), 13)
}

/// The leaves of the tree of days.
pub open spec fn day_tree_leaves(days: Map<u16, B256>) -> Map<int, B256> {
    Map::new(|i: int| 0 <= i < 65536 && days.contains_key(i as u16), |i: int| days[i as u16])
}

/// The anchor of a chain with the given day roots.
pub open spec fn day_anchor(days: Map<u16, B256>) -> B256 {
    tree_root(day_tree_leaves(days), 15)
}

/// What a tracker holds.
#[verifier::ext_equal]
pub struct HierarchyView {
    /// Block roots and leaf counts, by day and position in the day.
    pub blocks: Map<u32, (B256, u32)>,
    /// Day roots.
    pub days: Map<u16, B256>,
    /// Days that have a tree of blocks.
    pub loaded: Set<u16>,
    /// The day that was last changed.
    pub last_day: Option<u16>,
}

/// The block that a key stands for lies within the tree.
pub open spec fn valid_key(key: u32) -> bool {
    key / 65536 < 32768 && key % 65536 < 8192
}

/// The root that a block's root hashes to within its day, and then within the tree of
/// days.
proof fn lemma_climb_concat(
    start: B256,
    day: int,
    block_in_day: int,
    low: Seq<B256>,
    high: Seq<B256>,
    levels: nat,
)
    requires
        0 <= block_in_day < 8192,
        0 <= day,
        low.len() == 13,
        levels <= high.len(),
    ensures
        climb(start, day * 8192 + block_in_day, low + high, 13 + levels) == climb(
            climb(start, block_in_day, low, 13),
            day,
            high,
            levels,
        ),
    decreases levels,
{
    let index = day * 8192 + block_in_day;
    lemma2_to64();
    if levels == 0 {
        lemma_climb_low(start, day, block_in_day, low, high, 13);
        assert(ancestor(day, 0) == day);
    } else {
        let l = (levels - 1) as nat;
        lemma_climb_concat(start, day, block_in_day, low, high, l);
        lemma_pow2_adds(13, l);
        lemma_pow2_pos(l);
        assert(ancestor(index, 13 + l) == ancestor(day, l)) by {
            lemma_div_denominator(index, 8192, pow2(l) as int);
            assert(index / 8192 == day);
        }
        assert((low + high)[(13 + l) as int] == high[l as int]);
    }
}

/// Within the day, only the position in the day counts.
proof fn lemma_climb_low(
    start: B256,
    day: int,
    block_in_day: int,
    low: Seq<B256>,
    high: Seq<B256>,
    levels: nat,
)
    requires
        0 <= block_in_day < 8192,
        0 <= day,
        low.len() == 13,
        levels <= 13,
    ensures
        climb(start, day * 8192 + block_in_day, low + high, levels) == climb(
            start,
            block_in_day,
            low,
            levels,
        ),
    decreases levels,
{
    let index = day * 8192 + block_in_day;
    if levels > 0 {
        let l = (levels - 1) as nat;
        lemma_climb_low(start, day, block_in_day, low, high, l);
        lemma_ancestor_parity(day, block_in_day, l);
        assert((low + high)[l as int] == low[l as int]);
    }
}

/// Below the day, an ancestor is that of the position in the day, next to those of the
/// days before.
proof fn lemma_ancestor_parity(day: int, block_in_day: int, level: nat)
    requires
        0 <= block_in_day < 8192,
        0 <= day,
        level < 13,
    ensures
        ancestor(day * 8192 + block_in_day, level) % 2 == ancestor(block_in_day, level) % 2,
{
    let index = day * 8192 + block_in_day;
    lemma2_to64();
    lemma_pow2_adds(level, (13 - level) as nat);
    lemma_pow2_adds(1, (12 - level) as nat);
    lemma_pow2_pos(level);
    let p = pow2(level) as int;
    let half = pow2((12 - level) as nat) as int;
    assert(8192 == p * (2 * half));
    assert(index == p * (2 * half * day) + block_in_day) by (nonlinear_arith)
        requires
            index == day * 8192 + block_in_day,
            8192 == p * (2 * half),
    ;
    assert(index / p == 2 * half * day + block_in_day / p) by {
        lemma_hoist_over_denominator(
            block_in_day,
            2 * half * day,
            p as nat,
        );
        assert(index == (2 * half * day) * p + block_in_day) by (nonlinear_arith)
            requires
                index == p * (2 * half * day) + block_in_day,
        ;
    }
    assert(2 * half * day == 2 * (half * day)) by (nonlinear_arith);
    assert((2 * (half * day) + block_in_day / p) % 2 == (block_in_day / p) % 2);
}

/// The tree of block roots, by day.
pub struct HierarchicalRootTracker {
    /// The tree of days.
    day_tree: IncrementalMerkleTree,
    /// The trees of the days' blocks.
    day_subtrees: HashMap<u16, IncrementalMerkleTree>,
    day_roots: HashMap<u16, B256>,
    /// Block roots and leaf counts, by day and position in the day.
    block_roots: HashMap<u32, (B256, u32)>,
    current_anchor: B256,
    last_day: Option<u16>,
}

impl View for HierarchicalRootTracker {
    type V = HierarchyView;

    closed spec fn view(&self) -> HierarchyView {
        HierarchyView {
            blocks: self.block_roots@,
            days: self.day_roots@,
            loaded: self.day_subtrees@.dom(),
            last_day: self.last_day,
        }
    }
}

/// The number under which a block is kept.
fn key_of(day: u16, block_in_day: u16) -> (r: u32)
    ensures
        r == block_key(day as int, block_in_day as int),
        r / 65536 == day,
        r % 65536 == block_in_day,
{
    (day as u32) * 65536 + block_in_day as u32
}

/// Setting a block changes one leaf of its own day's tree and none of another's.
proof fn lemma_day_leaves_insert(
    blocks: Map<u32, (B256, u32)>,
    day: u16,
    block_in_day: u16,
    entry: (B256, u32),
    other: u16,
    i: int,
)
    ensures
        leaf_of(
            day_leaves(blocks.insert(block_key(day as int, block_in_day as int), entry), other),
            i,
        ) == if other == day && i == block_in_day {
            entry.0
        } else {
            leaf_of(day_leaves(blocks, other), i)
        },
{
    if 0 <= i < 65536 && !(other == day && i == block_in_day) {
        assert(block_key(other as int, i) != block_key(day as int, block_in_day as int));
    }
}

/// Taking a block out zeroes one leaf of its own day's tree and changes none of another's.
proof fn lemma_day_leaves_remove(
    blocks: Map<u32, (B256, u32)>,
    day: u16,
    block_in_day: u16,
    other: u16,
    i: int,
)
    ensures
        leaf_of(
            day_leaves(blocks.remove(block_key(day as int, block_in_day as int)), other),
            i,
        ) == if other == day && i == block_in_day {
            zero_word()
        } else {
            leaf_of(day_leaves(blocks, other), i)
        },
{
    if 0 <= i < 65536 && !(other == day && i == block_in_day) {
        assert(block_key(other as int, i) != block_key(day as int, block_in_day as int));
    }
}

/// Trees whose leaves agree have the same root and the same paths.
proof fn lemma_same_tree(a: Map<int, B256>, b: Map<int, B256>, depth: nat, index: int)
    requires
        forall|i: int| leaf_of(a, i) == leaf_of(b, i),
    ensures
        tree_root(a, depth) == tree_root(b, depth),
        sibling_path(a, depth, index) == sibling_path(b, depth, index),
{
    lemma_node_same(a, b, depth, 0);
    assert forall|l: int| 0 <= l < depth implies sibling_path(a, depth, index)[l] == sibling_path(
        b,
        depth,
        index,
    )[l] by {
        lemma_node_same(a, b, l as nat, other_child(ancestor(index, l as nat)));
    }
    assert(sibling_path(a, depth, index) =~= sibling_path(b, depth, index));
}

/// A view after a block was set: its day's root is renewed, and the day is the last that
/// was changed.
pub open spec fn with_block(
    v: HierarchyView,
    day: u16,
    block_in_day: u16,
    block_root: B256,
    leaf_count: u32,
) -> HierarchyView {
    let blocks = v.blocks.insert(
        block_key(day as int, block_in_day as int),
        (block_root, leaf_count),
    );
    HierarchyView {
        blocks,
        days: v.days.insert(day, day_root_of(blocks, day)),
        loaded: v.loaded.insert(day),
        last_day: Some(day),
    }
}

/// The siblings of a block's position: those within its day, then those of the day.
pub open spec fn position_path(v: HierarchyView, day: u16, block_in_day: u16) -> Seq<B256> {
    sibling_path(day_leaves(v.blocks, day), 13, block_in_day as int) + sibling_path(
        day_tree_leaves(v.days),
        15,
        day as int,
    )
}

impl HierarchicalRootTracker {
    spec fn days_match(self) -> bool {
        forall|i: int|
            leaf_of(self.day_tree.leaves(), i) == #[trigger] leaf_of(
                day_tree_leaves(self.day_roots@),
                i,
            )
    }

    spec fn subtree_matches(self, day: u16) -> bool {
        &&& day < 32768
        &&& self.day_subtrees@[day].wf()
        &&& self.day_subtrees@[day].spec_depth() == 13
        &&& forall|i: int|
            leaf_of(self.day_subtrees@[day].leaves(), i) == #[trigger] leaf_of(
                day_leaves(self.block_roots@, day),
                i,
            )
    }

    /// Every tree holds exactly the roots kept beside it, all positions lie within the
    /// trees, every block's day has a tree, and the anchor is the root of the tree of days.
    pub closed spec fn wf(self) -> bool {
        &&& self.day_tree.wf()
        &&& self.day_tree.spec_depth() == 15
        &&& self.days_match()
        &&& forall|d: u16| #[trigger] self.day_roots@.contains_key(d) ==> d < 32768
        &&& forall|d: u16| #[trigger]
            self.day_subtrees@.contains_key(d) ==> self.subtree_matches(d)
        &&& forall|k: u32| #[trigger]
            self.block_roots@.contains_key(k) ==> valid_key(k) && self.day_subtrees@.contains_key(
                (k / 65536) as u16,
            )
        &&& self.current_anchor == self.day_tree.spec_root()
    }

    /// What is known of every tracker: its positions lie within the trees, and the day of
    /// each block has a tree.
    pub proof fn lemma_positions(self)
        requires
            self.wf(),
        ensures
            forall|k: u32| #[trigger]
                self@.blocks.contains_key(k) ==> valid_key(k) && self@.loaded.contains(
                    (k / 65536) as u16,
                ),
            forall|d: u16| #[trigger] self@.days.contains_key(d) ==> d < 32768,
    {
    }

    /// The tracker of a chain without blocks.
    pub fn new() -> (r: HierarchicalRootTracker)
        ensures
            r.wf(),
            r@.blocks == Map::<u32, (B256, u32)>::empty(),
            r@.days == Map::<u16, B256>::empty(),
            r@.loaded == Set::<u16>::empty(),
            r@.last_day is None,
    {
        let day_tree = IncrementalMerkleTree::new(DAY_DEPTH);
        let current_anchor = day_tree.root();
        let r = HierarchicalRootTracker {
            day_tree,
            day_subtrees: HashMap::new(),
            day_roots: HashMap::new(),
            block_roots: HashMap::new(),
            current_anchor,
            last_day: None,
        };
        assert(r@.loaded =~= Set::<u16>::empty());
        r
    }

    /// Sets the root of a day.
    fn put_day(&mut self, day: u16, day_root: B256)
        requires
            old(self).wf(),
            day < 32768,
        ensures
            final(self).wf(),
            final(self)@ == (HierarchyView { days: old(self)@.days.insert(day, day_root), ..old(self)@ }),
    {
        proof {
            lemma2_to64();
        }
        let ghost before = *self;
        self.day_tree.set_leaf(day as usize, day_root);
        self.day_roots.insert(day, day_root);
        self.current_anchor = self.day_tree.root();
        proof {
            assert forall|i: int|
                leaf_of(self.day_tree.leaves(), i) == #[trigger] leaf_of(
                    day_tree_leaves(self.day_roots@),
                    i,
                ) by {
                assert(leaf_of(before.day_tree.leaves(), i) == leaf_of(
                    day_tree_leaves(before.day_roots@),
                    i,
                ));
            }
            assert forall|d: u16| #[trigger] self.day_roots@.contains_key(d) implies d < 32768 by {
                assert(d == day || before.day_roots@.contains_key(d));
            }
            assert forall|d: u16| #[trigger]
                self.day_subtrees@.contains_key(d) implies self.subtree_matches(d) by {
                assert(before.day_subtrees@.contains_key(d));
                assert(before.subtree_matches(d));
            }
        }
    }

    /// Sets the root of a block, within its day only.
    fn put_block(&mut self, day: u16, block_in_day: u16, block_root: B256, leaf_count: u32)
        requires
            old(self).wf(),
            day < 32768,
            block_in_day < 8192,
        ensures
            final(self).wf(),
            final(self)@ == (HierarchyView {
                blocks: old(self)@.blocks.insert(
                    block_key(day as int, block_in_day as int),
                    (block_root, leaf_count),
                ),
                loaded: old(self)@.loaded.insert(day),
                ..old(self)@
            }),
    {
        proof {
            lemma2_to64();
        }
        let ghost before = *self;
        let key = key_of(day, block_in_day);
        let mut subtree = match self.day_subtrees.remove(&day) {
            Some(subtree) => {
                proof {
                    assert(before.day_subtrees@.contains_key(day));
                    assert(before.subtree_matches(day));
                }
                subtree
            },
            None => {
                proof {
                    assert forall|i: int| leaf_of(
                        day_leaves(before.block_roots@, day),
                        i,
                    ) == zero_word() by {
                        if 0 <= i < 65536 && before.block_roots@.contains_key(
                            block_key(day as int, i),
                        ) {
                            assert((block_key(day as int, i) / 65536) as u16 == day);
                            assert(before.day_subtrees@.contains_key(day));
                        }
                    }
                }
                IncrementalMerkleTree::new(BLOCK_IN_DAY_DEPTH)
            },
        };
        let ghost old_leaves = subtree.leaves();
        assert(forall|i: int| leaf_of(old_leaves, i) == leaf_of(day_leaves(before.block_roots@, day), i));
        subtree.set_leaf(block_in_day as usize, block_root);
        let ghost new_subtree = subtree;
        self.day_subtrees.insert(day, subtree);
        self.block_roots.insert(key, (block_root, leaf_count));
        proof {
            assert(self.day_subtrees@ =~= before.day_subtrees@.insert(day, new_subtree));
            assert forall|d: u16| #[trigger]
                self.day_subtrees@.contains_key(d) implies self.subtree_matches(d) by {
                assert forall|i: int|
                    leaf_of(self.day_subtrees@[d].leaves(), i) == #[trigger] leaf_of(
                        day_leaves(self.block_roots@, d),
                        i,
                    ) by {
                    lemma_day_leaves_insert(
                        before.block_roots@,
                        day,
                        block_in_day,
                        (block_root, leaf_count),
                        d,
                        i,
                    );
                    if d != day {
                        assert(before.day_subtrees@.contains_key(d));
                        assert(before.subtree_matches(d));
                        assert(leaf_of(before.day_subtrees@[d].leaves(), i) == leaf_of(
                            day_leaves(before.block_roots@, d),
                            i,
                        ));
                    }
                }
                if d != day {
                    assert(before.day_subtrees@.contains_key(d));
                    assert(before.subtree_matches(d));
                }
            }
            assert forall|k: u32| #[trigger] self.block_roots@.contains_key(k) implies valid_key(k)
                && self.day_subtrees@.contains_key((k / 65536) as u16) by {
                if k != key {
                    assert(before.block_roots@.contains_key(k));
                }
            }
            assert(self@.loaded =~= before@.loaded.insert(day));
        }
    }

    /// The root of the tree of a day's blocks, where there is one.
    fn subtree_root(&self, day: u16) -> (r: Option<B256>)
        requires
            self.wf(),
        ensures
            r is Some <==> self@.loaded.contains(day),
            r matches Some(root) ==> root == day_root_of(self@.blocks, day),
    {
        match self.day_subtrees.get(&day) {
            Some(subtree) => {
                proof {
                    assert(self.day_subtrees@.contains_key(day));
                    assert(self.subtree_matches(day));
                    lemma_same_tree(
                        subtree.leaves(),
                        day_leaves(self.block_roots@, day),
                        13,
                        0,
                    );
                }
                Some(subtree.root())
            },
            None => None,
        }
    }

    /// Sets the root of a block. Returns the anchor after it, whether the block's day is
    /// another than the one that was changed before, and if so the root that the day had.
    pub fn insert_block_root(
        &mut self,
        day: u16,
        block_in_day: u16,
        block_root: B256,
        leaf_count: u32,
    ) -> (r: (B256, bool, Option<B256>))
        requires
            old(self).wf(),
            day < 32768,
            block_in_day < 8192,
        ensures
            final(self).wf(),
            final(self)@ == with_block(old(self)@, day, block_in_day, block_root, leaf_count),
            r.0 == day_anchor(final(self)@.days),
            r.1 == (old(self)@.last_day != Some(day)),
            r.2 == (if r.1 && old(self)@.days.contains_key(day) {
                Some(old(self)@.days[day])
            } else {
                None
            }),
    {
        self.put_block(day, block_in_day, block_root, leaf_count);
        let old_day_root = self.get_day_root(day);
        match self.subtree_root(day) {
            Some(root) => {
                self.put_day(day, root);
            },
            None => {},
        }
        let day_changed: bool = match self.last_day {
            Some(last) => day != last,
            None => true,
        };
        let ghost before = *self;
        self.last_day = Some(day);
        proof {
            assert forall|d: u16| #[trigger]
                self.day_subtrees@.contains_key(d) implies self.subtree_matches(d) by {
                assert(before.day_subtrees@.contains_key(d));
                assert(before.subtree_matches(d));
            }
        }
        let previous = if day_changed {
            old_day_root
        } else {
            None
        };
        (self.current_anchor(), day_changed, previous)
    }

    /// The root of the tree of days.
    pub fn current_anchor(&self) -> (r: B256)
        requires
            self.wf(),
        ensures
            r == day_anchor(self@.days),
    {
        proof {
            lemma_same_tree(self.day_tree.leaves(), day_tree_leaves(self.day_roots@), 15, 0);
        }
        self.current_anchor
    }

    /// The root of a day.
    pub fn get_day_root(&self, day: u16) -> (r: Option<B256>)
        ensures
            r == (if self@.days.contains_key(day) {
                Some(self@.days[day])
            } else {
                None
            }),
    {
        match self.day_roots.get(&day) {
            Some(root) => Some(*root),
            None => None,
        }
    }

    /// Day roots from one day to another, both included, by day.
    pub fn get_day_roots_range(&self, from_day: u16, to_day: u16) -> (r: Vec<(u16, B256)>)
        ensures
            r@ == listed_days(self@.days, from_day as nat, to_day as nat + 1),
    {
        let mut roots: Vec<(u16, B256)> = Vec::new();
        let mut d: u32 = from_day as u32;
        while d <= to_day as u32
            invariant
                from_day <= d,
                d <= to_day + 1 || d == from_day,
                roots@ == listed_days(self@.days, from_day as nat, d as nat),
            decreases to_day + 1 - d,
        {
            match self.day_roots.get(&(d as u16)) {
                Some(root) => {
                    roots.push((d as u16, *root));
                },
                None => {},
            }
            d += 1;
        }
        roots
    }

    /// All day roots, by day.
    pub fn get_all_day_roots(&self) -> (r: Vec<(u16, B256)>)
        ensures
            r@ == listed_days(self@.days, 0, 65536),
    {
        self.get_day_roots_range(0, 65535)
    }

    /// Roots and leaf counts of a day's blocks, by position.
    pub fn get_block_roots_for_day(&self, day: u16) -> (r: Vec<(u16, B256, u32)>)
        ensures
            r@ == listed_blocks(self@.blocks, day, 8192),
            r@.len() <= 8192,
    {
        let mut roots: Vec<(u16, B256, u32)> = Vec::new();
        let mut b: u16 = 0;
        while b < 8192
            invariant
                b <= 8192,
                roots@ == listed_blocks(self@.blocks, day, b as nat),
                roots@.len() <= b,
            decreases 8192 - b,
        {
            let key = key_of(day, b);
            match self.block_roots.get(&key) {
                Some(entry) => {
                    roots.push((b, entry.0, entry.1));
                },
                None => {},
            }
            b += 1;
        }
        roots
    }

    /// Number of a day's blocks.
    pub fn get_block_count_for_day(&self, day: u16) -> (r: u32)
        ensures
            r == listed_blocks(self@.blocks, day, 8192).len(),
    {
        self.get_block_roots_for_day(day).len() as u32
    }

    /// Number of blocks tracked.
    pub fn block_count(&self) -> (r: usize)
        ensures
            r == self@.blocks.len(),
    {
        self.block_roots.len()
    }

    /// Number of days tracked.
    pub fn day_count(&self) -> (r: usize)
        ensures
            r == self@.days.len(),
    {
        self.day_roots.len()
    }

    /// The day that was last changed.
    pub fn last_day(&self) -> (r: Option<u16>)
        ensures
            r == self@.last_day,
    {
        self.last_day
    }

    /// The position of a block in one tree of all block roots.
    pub fn compute_tree_index(day: u16, block_in_day: u16) -> (r: u64)
        ensures
            r == day * BLOCKS_PER_DAY + block_in_day,
    {
        (day as u64) * BLOCKS_PER_DAY + block_in_day as u64
    }

    /// The siblings of a day in the tree of days.
    pub fn get_day_path(&self, day: u16) -> (r: [B256; 15])
        requires
            self.wf(),
            day < 32768,
        ensures
            r@ == sibling_path(day_tree_leaves(self@.days), 15, day as int),
    {
        proof {
            lemma2_to64();
            lemma_same_tree(
                self.day_tree.leaves(),
                day_tree_leaves(self.day_roots@),
                15,
                day as int,
            );
        }
        let mut path = [B256::zero();15];
        match self.day_tree.get_proof(day as usize) {
            Ok(proof) => {
                let mut i: usize = 0;
                while i < DAY_DEPTH
                    invariant
                        i <= 15,
                        proof.siblings@.len() == 15,
                        forall|j: int| 0 <= j < i ==> path@[j] == proof.siblings@[j],
                    decreases 15 - i,
                {
                    path[i] = proof.siblings[i];
                    i += 1;
                }
                assert(path@ =~= proof.siblings@);
            },
            Err(_) => {},
        }
        path
    }

    /// The siblings of a block within its day, which has to have a tree.
    pub fn get_block_in_day_path(&self, day: u16, block_in_day: u16) -> (r: [B256; 13])
        requires
            self.wf(),
            self@.loaded.contains(day),
            block_in_day < 8192,
        ensures
            r@ == sibling_path(day_leaves(self@.blocks, day), 13, block_in_day as int),
    {
        self.in_day_path(day, block_in_day)
    }

    /// The siblings of a block within its day; those of the empty tree where the day has
    /// none.
    fn in_day_path(&self, day: u16, block_in_day: u16) -> (r: [B256; 13])
        requires
            self.wf(),
            block_in_day < 8192,
        ensures
            r@ == sibling_path(day_leaves(self@.blocks, day), 13, block_in_day as int),
    {
        proof {
            lemma2_to64();
        }
        let mut path = [B256::zero();13];
        match self.day_subtrees.get(&day) {
            Some(subtree) => {
                proof {
                    assert(self.day_subtrees@.contains_key(day));
                    assert(self.subtree_matches(day));
                    lemma_same_tree(
                        subtree.leaves(),
                        day_leaves(self.block_roots@, day),
                        13,
                        block_in_day as int,
                    );
                }
                match subtree.get_proof(block_in_day as usize) {
                    Ok(proof) => {
                        let mut i: usize = 0;
                        while i < BLOCK_IN_DAY_DEPTH
                            invariant
                                i <= 13,
                                proof.siblings@.len() == 13,
                                forall|j: int| 0 <= j < i ==> path@[j] == proof.siblings@[j],
                            decreases 13 - i,
                        {
                            path[i] = proof.siblings[i];
                            i += 1;
                        }
                        assert(path@ =~= proof.siblings@);
                    },
                    Err(_) => {},
                }
            },
            None => {
                let zero_hashes = compute_zero_hashes(BLOCK_IN_DAY_DEPTH);
                let mut i: usize = 0;
                while i < BLOCK_IN_DAY_DEPTH
                    invariant
                        i <= 13,
                        zero_hashes@.len() == 14,
                        forall|l: int|
                            0 <= l <= 13 ==> #[trigger] zero_hashes@[l] == zero_hash(l as nat),
                        forall|j: int| 0 <= j < i ==> #[trigger] path@[j] == zero_hash(j as nat),
                    decreases 13 - i,
                {
                    path[i] = zero_hashes[i];
                    i += 1;
                }
                proof {
                    let leaves = day_leaves(self.block_roots@, day);
                    assert forall|i: int| leaf_of(leaves, i) == leaf_of(Map::empty(), i) by {
                        if 0 <= i < 65536 && self.block_roots@.contains_key(
                            block_key(day as int, i),
                        ) {
                            assert((block_key(day as int, i) / 65536) as u16 == day);
                            assert(self.day_subtrees@.contains_key(day));
                        }
                    }
                    assert forall|l: int| 0 <= l < 13 implies path@[l] == sibling_path(
                        leaves,
                        13,
                        block_in_day as int,
                    )[l] by {
                        let at = other_child(ancestor(block_in_day as int, l as nat));
                        lemma_node_same(leaves, Map::empty(), l as nat, at);
                        lemma_node_empty(l as nat, at);
                    }
                    assert(path@ =~= sibling_path(leaves, 13, block_in_day as int));
                }
            },
        }
        path
    }

    /// The siblings of a block's position: those within its day, then those of the day.
    pub fn get_root_path_for_position(&self, day: u16, block_in_day: u16) -> (r: [B256; 28])
        requires
            self.wf(),
            day < 32768,
            block_in_day < 8192,
        ensures
            r@ == position_path(self@, day, block_in_day),
    {
        let low = self.in_day_path(day, block_in_day);
        let high = self.get_day_path(day);
        let mut path = [B256::zero();28];
        let mut i: usize = 0;
        while i < 28
            invariant
                i <= 28,
                forall|j: int| 0 <= j < i ==> #[trigger] path@[j] == (low@ + high@)[j],
            decreases 28 - i,
        {
            path[i] = if i < BLOCK_IN_DAY_DEPTH {
                low[i]
            } else {
                high[i - BLOCK_IN_DAY_DEPTH]
            };
            i += 1;
        }
        assert(path@ =~= low@ + high@);
        path
    }

    /// The anchor that would follow if the root of a block were set.
    pub fn compute_anchor_for_block(&self, day: u16, block_in_day: u16, block_root: B256) -> (r: B256)
        requires
            self.wf(),
            day < 32768,
            block_in_day < 8192,
        ensures
            forall|leaf_count: u32|
                r == day_anchor(
                    (#[trigger] with_block(self@, day, block_in_day, block_root, leaf_count)).days,
                ),
    {
        let root_path = self.get_root_path_for_position(day, block_in_day);
        let tree_index = Self::compute_tree_index(day, block_in_day);
        proof {
            assert forall|leaf_count: u32| climb(
                block_root,
                tree_index as int,
                root_path@,
                28,
            ) == day_anchor(
                (#[trigger] with_block(self@, day, block_in_day, block_root, leaf_count)).days,
            ) by {
                law_path_leads_to_block_anchor(self@, day, block_in_day, block_root, leaf_count);
            }
        }
        compute_anchor_from_path(block_root, tree_index, &root_path)
    }

    /// Restores a tracker from day roots (day, root, block count, last block number) and
    /// blocks (day, position in the day, number, root, leaf count). Days of which no root
    /// is given get theirs from their blocks.
    pub fn from_database(
        day_roots_data: &[(u16, B256, u32, u64)],
        block_roots_data: &[(u16, u16, u64, B256, u32)],
    ) -> (r: HierarchicalRootTracker)
        requires
            forall|i: int|
                0 <= i < day_roots_data@.len() ==> (#[trigger] day_roots_data@[i]).0 < 32768,
            forall|i: int|
                0 <= i < block_roots_data@.len() ==> (#[trigger] block_roots_data@[i]).0 < 32768
                    && block_roots_data@[i].1 < 8192,
        ensures
            r.wf(),
            r@ == restored(day_roots_data@, block_roots_data@),
    {
        let mut tracker = Self::new();
        let mut i: usize = 0;
        while i < day_roots_data.len()
            invariant
                i <= day_roots_data@.len(),
                forall|j: int|
                    0 <= j < day_roots_data@.len() ==> (#[trigger] day_roots_data@[j]).0 < 32768,
                tracker.wf(),
                tracker@.blocks == Map::<u32, (B256, u32)>::empty(),
                tracker@.loaded == Set::<u16>::empty(),
                tracker@.last_day is None,
                tracker@.days == given_days(day_roots_data@, i as nat),
            decreases day_roots_data@.len() - i,
        {
            let (day, day_root, _, _) = day_roots_data[i];
            tracker.put_day(day, day_root);
            i += 1;
        }
        let mut last_day: Option<u16> = None;
        let mut j: usize = 0;
        while j < block_roots_data.len()
            invariant
                j <= block_roots_data@.len(),
                forall|k: int|
                    0 <= k < block_roots_data@.len() ==> (#[trigger] block_roots_data@[k]).0
                        < 32768 && block_roots_data@[k].1 < 8192,
                tracker.wf(),
                tracker@.days == given_days(day_roots_data@, day_roots_data@.len()),
                tracker@.last_day is None,
                tracker@.blocks == given_blocks(block_roots_data@, j as nat),
                tracker@.loaded == given_loaded(block_roots_data@, j as nat),
                last_day == latest_day(block_roots_data@, j as nat),
            decreases block_roots_data@.len() - j,
        {
            let (day, block_in_day, _, block_root, leaf_count) = block_roots_data[j];
            tracker.put_block(day, block_in_day, block_root, leaf_count);
            last_day = match last_day {
                Some(last) => if last < day {
                    Some(day)
                } else {
                    Some(last)
                },
                None => Some(day),
            };
            j += 1;
        }
        let ghost given = tracker@.days;
        let ghost blocks = tracker@.blocks;
        let ghost loaded = tracker@.loaded;
        assert(tracker@.days =~= completed_days(given, blocks, given_loaded(block_roots_data@, 0)));
        let mut k: usize = 0;
        while k < block_roots_data.len()
            invariant
                k <= block_roots_data@.len(),
                forall|m: int|
                    0 <= m < block_roots_data@.len() ==> (#[trigger] block_roots_data@[m]).0
                        < 32768 && block_roots_data@[m].1 < 8192,
                tracker.wf(),
                tracker@.blocks == blocks,
                tracker@.loaded == loaded,
                tracker@.last_day is None,
                loaded == given_loaded(block_roots_data@, block_roots_data@.len()),
                tracker@.days == completed_days(
                    given,
                    blocks,
                    given_loaded(block_roots_data@, k as nat),
                ),
            decreases block_roots_data@.len() - k,
        {
            let day = block_roots_data[k].0;
            proof {
                lemma_loaded_contains(block_roots_data@, k as int, block_roots_data@.len());
            }
            let ghost before = tracker@.days;
            if tracker.get_day_root(day).is_none() {
                match tracker.subtree_root(day) {
                    Some(root) => {
                        tracker.put_day(day, root);
                    },
                    None => {},
                }
            }
            assert(tracker@.days =~= completed_days(
                given,
                blocks,
                given_loaded(block_roots_data@, (k + 1) as nat),
            ));
            k += 1;
        }
        tracker.set_last_day(last_day);
        tracker
    }

    /// Notes the day that was last changed.
    fn set_last_day(&mut self, last_day: Option<u16>)
        requires
            old(self).wf(),
        ensures
            final(self).wf(),
            final(self)@ == (HierarchyView { last_day, ..old(self)@ }),
    {
        let ghost before = *self;
        self.last_day = last_day;
        proof {
            assert forall|d: u16| #[trigger]
                self.day_subtrees@.contains_key(d) implies self.subtree_matches(d) by {
                assert(before.day_subtrees@.contains_key(d));
                assert(before.subtree_matches(d));
            }
        }
    }
}

/// The day that a key stands for.
pub open spec fn key_day(key: u32) -> u16 {
    (key / 65536) as u16
}

/// The position in the day that a key stands for.
pub open spec fn key_block(key: u32) -> u16 {
    (key % 65536) as u16
}

/// Whether a day loses one of the blocks in `gone`.
pub open spec fn loses_block(gone: Set<u32>, day: u16) -> bool {
    exists|key: u32| #[trigger] gone.contains(key) && key_day(key) == day
}

/// Day roots after blocks were taken out: those of the days that lost one follow from
/// their blocks.
pub open spec fn renewed_days(
    days: Map<u16, B256>,
    blocks: Map<u32, (B256, u32)>,
    gone: Set<u32>,
) -> Map<u16, B256> {
    Map::new(
        |d: u16| days.contains_key(d) || loses_block(gone, d),
        |d: u16|
            if loses_block(gone, d) {
                day_root_of(blocks, d)
            } else {
                days[d]
            },
    )
}

/// Whether a day is the latest that has a block; none where there is no block.
pub open spec fn is_latest_day(blocks: Map<u32, (B256, u32)>, day: Option<u16>) -> bool {
    match day {
        Some(d) => {
            &&& exists|key: u32| #[trigger] blocks.contains_key(key) && key_day(key) == d
            &&& forall|key: u32| #[trigger] blocks.contains_key(key) ==> key_day(key) <= d
        },
        None => forall|key: u32| !#[trigger] blocks.contains_key(key),
    }
}

/// Whether an answer to the question for a block's number sends the block away.
pub open spec fn sends_away(answer: Option<u64>, from_block_nr: u64) -> bool {
    answer matches Some(nr) && nr >= from_block_nr
}

/// Whether `gone` is the set of blocks for which the numbers that `get_block_nr` gave are
/// not below `from_block_nr`.
pub open spec fn chosen_to_go<F: Fn(u16, u16) -> Option<u64>>(
    blocks: Map<u32, (B256, u32)>,
    from_block_nr: u64,
    get_block_nr: F,
    gone: Set<u32>,
) -> bool {
    &&& forall|key: u32| #[trigger] gone.contains(key) ==> blocks.contains_key(key)
    &&& forall|key: u32| #[trigger]
        blocks.contains_key(key) ==> exists|answer: Option<u64>|
            call_ensures(get_block_nr, (key_day(key), key_block(key)), answer) && (gone.contains(key)
                <==> #[trigger] sends_away(answer, from_block_nr))
}

impl HierarchicalRootTracker {
    /// Takes a block out, within its day only.
    fn drop_block(&mut self, key: u32)
        requires
            old(self).wf(),
            old(self)@.blocks.contains_key(key),
        ensures
            final(self).wf(),
            final(self)@ == (HierarchyView { blocks: old(self)@.blocks.remove(key), ..old(self)@ }),
    {
        proof {
            lemma2_to64();
        }
        let ghost before = *self;
        let day: u16 = (key / 65536) as u16;
        let block_in_day: u16 = (key % 65536) as u16;
        proof {
            assert(before.block_roots@.contains_key(key));
            assert(key == block_key(day as int, block_in_day as int));
            assert(before.day_subtrees@.contains_key(day));
            assert(before.subtree_matches(day));
        }
        self.block_roots.remove(&key);
        match self.day_subtrees.remove(&day) {
            Some(tree) => {
                let mut subtree = tree;
                subtree.set_leaf(block_in_day as usize, B256::zero());
                let ghost new_subtree = subtree;
                self.day_subtrees.insert(day, subtree);
                proof {
                    assert(self.day_subtrees@ =~= before.day_subtrees@.insert(day, new_subtree));
                    assert forall|d: u16| #[trigger]
                        self.day_subtrees@.contains_key(d) implies self.subtree_matches(d) by {
                        assert(before.day_subtrees@.contains_key(d));
                        assert(before.subtree_matches(d));
                        assert forall|i: int|
                            leaf_of(self.day_subtrees@[d].leaves(), i) == #[trigger] leaf_of(
                                day_leaves(self.block_roots@, d),
                                i,
                            ) by {
                            lemma_day_leaves_remove(
                                before.block_roots@,
                                day,
                                block_in_day,
                                d,
                                i,
                            );
                            assert(leaf_of(before.day_subtrees@[d].leaves(), i) == leaf_of(
                                day_leaves(before.block_roots@, d),
                                i,
                            ));
                        }
                    }
                    assert forall|k: u32| #[trigger]
                        self.block_roots@.contains_key(k) implies valid_key(k)
                        && self.day_subtrees@.contains_key((k / 65536) as u16) by {
                        assert(before.block_roots@.contains_key(k));
                    }
                    assert(self@.loaded =~= before@.loaded);
                }
            },
            None => {},
        }
    }

    /// Takes out every block whose number, as `get_block_nr` gives it, is not below
    /// `from_block_nr`. Blocks for which it gives none stay.
    pub fn remove_blocks_from<F: Fn(u16, u16) -> Option<u64>>(
        &mut self,
        from_block_nr: u64,
        get_block_nr: F,
    )
        requires
            old(self).wf(),
            forall|d: u16, b: u16| call_requires(get_block_nr, (d, b)),
        ensures
            final(self).wf(),
            exists|gone: Set<u32>| #[trigger]
                chosen_to_go(old(self)@.blocks, from_block_nr, get_block_nr, gone) && {
                    &&& final(self)@.blocks == old(self)@.blocks.remove_keys(gone)
                    &&& final(self)@.days == renewed_days(
                        old(self)@.days,
                        final(self)@.blocks,
                        gone,
                    )
                },
            final(self)@.loaded == old(self)@.loaded,
            is_latest_day(final(self)@.blocks, final(self)@.last_day),
    {
        let ghost v = self@;
        let keys = self.block_keys();
        let mut gone: Vec<u32> = Vec::new();
        let mut last_day: Option<u16> = None;
        let ghost mut answers: Seq<Option<u64>> = Seq::empty();
        let mut i: usize = 0;
        while i < keys.len()
            invariant
                i <= keys@.len(),
                forall|d: u16, b: u16| call_requires(get_block_nr, (d, b)),
                keys@.no_duplicates(),
                answers.len() == i,
                forall|j: int|
                    0 <= j < i ==> call_ensures(
                        get_block_nr,
                        (key_day(keys@[j]), key_block(keys@[j])),
                        #[trigger] answers[j],
                    ),
                forall|j: int|
                    0 <= j < i ==> (sends_away(#[trigger] answers[j], from_block_nr)
                        <==> gone@.contains(keys@[j])),
                forall|m: int|
                    0 <= m < gone@.len() ==> exists|j: int|
                        0 <= j < i && #[trigger] keys@[j] == #[trigger] gone@[m],
                gone@.no_duplicates(),
                last_day is None ==> forall|j: int|
                    0 <= j < i ==> sends_away(#[trigger] answers[j], from_block_nr),
                last_day matches Some(d) ==> exists|j: int|
                    0 <= j < i && !sends_away(#[trigger] answers[j], from_block_nr) && key_day(
                        keys@[j],
                    ) == d,
                last_day matches Some(d) ==> forall|j: int|
                    0 <= j < i && !sends_away(#[trigger] answers[j], from_block_nr) ==> key_day(
                        keys@[j],
                    ) <= d,
            decreases keys@.len() - i,
        {
            let key: u32 = keys[i];
            let day: u16 = (key / 65536) as u16;
            let block_in_day: u16 = (key % 65536) as u16;
            let answer = get_block_nr(day, block_in_day);
            let away: bool = match answer {
                Some(nr) => nr >= from_block_nr,
                None => false,
            };
            let ghost gone_before = gone@;
            let ghost answers_before = answers;
            let ghost last_before = last_day;
            proof {
                answers = answers.push(answer);
                assert(!gone@.contains(key)) by {
                    if gone@.contains(key) {
                        let m = choose|m: int| 0 <= m < gone@.len() && gone@[m] == key;
                        let j = choose|j: int| 0 <= j < i && #[trigger] keys@[j] == gone@[m];
                        assert(keys@[j] == keys@[i as int]);
                    }
                }
            }
            if away {
                gone.push(key);
            } else {
                last_day = match last_day {
                    Some(last) => if last < day {
                        Some(day)
                    } else {
                        Some(last)
                    },
                    None => Some(day),
                };
            }
            proof {
                assert(sends_away(answers[i as int], from_block_nr) == away);
                assert forall|j: int| 0 <= j < i implies (sends_away(
                    #[trigger] answers[j],
                    from_block_nr,
                ) <==> gone@.contains(keys@[j])) by {
                    assert(answers[j] == answers_before[j]);
                    if gone_before.contains(keys@[j]) {
                        let m = choose|m: int|
                            0 <= m < gone_before.len() && gone_before[m] == keys@[j];
                        assert(gone@[m] == keys@[j]);
                    }
                    if gone@.contains(keys@[j]) {
                        let m = choose|m: int| 0 <= m < gone@.len() && gone@[m] == keys@[j];
                        if m < gone_before.len() {
                            assert(gone_before[m] == keys@[j]);
                        } else {
                            assert(keys@[j] == keys@[i as int]);
                        }
                    }
                }
                if away {
                    assert(gone@[gone@.len() - 1] == keys@[i as int]);
                }
                assert forall|m: int| 0 <= m < gone@.len() implies exists|j: int|
                    0 <= j < i + 1 && #[trigger] keys@[j] == #[trigger] gone@[m] by {
                    if m < gone_before.len() {
                        assert(gone@[m] == gone_before[m]);
                    } else {
                        assert(keys@[i as int] == gone@[m]);
                    }
                }
                if let Some(last) = last_before {
                    let w = choose|j: int|
                        0 <= j < i && !sends_away(#[trigger] answers_before[j], from_block_nr)
                            && key_day(keys@[j]) == last;
                    assert(answers[w] == answers_before[w]);
                }
                assert forall|j: int| 0 <= j < i implies #[trigger] answers[j]
                    == answers_before[j] by {}
            }
            i += 1;
        }
        proof {
            assert forall|m: int| 0 <= m < gone@.len() implies v.blocks.contains_key(
                #[trigger] gone@[m],
            ) by {
                let j = choose|j: int| 0 <= j < i && #[trigger] keys@[j] == gone@[m];
                assert(keys@.contains(keys@[j]));
            }
            assert forall|key: u32| #[trigger]
                v.blocks.contains_key(key) implies exists|answer: Option<u64>|
                call_ensures(get_block_nr, (key_day(key), key_block(key)), answer) && (
                gone@.to_set().contains(key) <==> #[trigger] sends_away(
                    answer,
                    from_block_nr,
                )) by {
                assert(keys@.contains(key));
                let j = choose|j: int| 0 <= j < keys@.len() && keys@[j] == key;
                assert(call_ensures(
                    get_block_nr,
                    (key_day(keys@[j]), key_block(keys@[j])),
                    answers[j],
                ));
                assert(sends_away(answers[j], from_block_nr) <==> gone@.contains(keys@[j]));
            }
            assert forall|key: u32| #[trigger]
                gone@.to_set().contains(key) implies v.blocks.contains_key(key) by {
                let m = choose|m: int| 0 <= m < gone@.len() && gone@[m] == key;
                assert(v.blocks.contains_key(gone@[m]));
            }
            assert(chosen_to_go(v.blocks, from_block_nr, get_block_nr, gone@.to_set()));
        }
        self.remove_listed(&gone);
        proof {
            let blocks = self@.blocks;
            if let Some(d) = last_day {
                let j = choose|j: int|
                    0 <= j < i && !sends_away(#[trigger] answers[j], from_block_nr) && key_day(
                        keys@[j],
                    ) == d;
                assert(keys@.contains(keys@[j]));
                assert(blocks.contains_key(keys@[j]));
            }
            assert forall|key: u32| #[trigger] blocks.contains_key(key) implies {
                &&& last_day is Some
                &&& key_day(key) <= last_day->0
            } by {
                assert(v.blocks.contains_key(key));
                assert(keys@.contains(key));
                let j = choose|j: int| 0 <= j < keys@.len() && keys@[j] == key;
                assert(sends_away(answers[j], from_block_nr) <==> gone@.contains(keys@[j]));
            }
        }
        self.set_last_day(last_day);
    }

    /// The keys of all blocks, in no particular order.
    fn block_keys(&self) -> (r: Vec<u32>)
        ensures
            r@.no_duplicates(),
            forall|k: u32| r@.contains(k) <==> #[trigger] self@.blocks.contains_key(k),
    {
        let mut keys: Vec<u32> = Vec::new();
        for entry in it: self.block_roots.iter()
            invariant
                it.seq().no_duplicates(),
                forall|i: int|
                    0 <= i < it.seq().len() ==> self@.blocks.contains_key(
                        *(#[trigger] it.seq()[i]).0,
                    ) && self@.blocks[*it.seq()[i].0] == *it.seq()[i].1,
                forall|k: u32| #[trigger]
                    self@.blocks.contains_key(k) ==> it.seq().contains((&k, &self@.blocks[k])),
                keys@.len() == it.index(),
                forall|i: int|
                    #![trigger keys@[i]]
                    #![trigger it.seq()[i]]
                    0 <= i < keys@.len() ==> keys@[i] == *it.seq()[i].0,
        {
            keys.push(*entry.0);
        }
        keys
    }

    /// Takes out the listed blocks and renews the roots of their days.
    fn remove_listed(&mut self, gone: &Vec<u32>)
        requires
            old(self).wf(),
            gone@.no_duplicates(),
            forall|i: int|
                0 <= i < gone@.len() ==> old(self)@.blocks.contains_key(#[trigger] gone@[i]),
        ensures
            final(self).wf(),
            final(self)@.blocks == old(self)@.blocks.remove_keys(gone@.to_set()),
            final(self)@.days == renewed_days(
                old(self)@.days,
                final(self)@.blocks,
                gone@.to_set(),
            ),
            final(self)@.loaded == old(self)@.loaded,
            final(self)@.last_day == old(self)@.last_day,
    {
        let ghost v = self@;
        let mut i: usize = 0;
        assert(self@.blocks =~= v.blocks.remove_keys(gone@.take(0).to_set()));
        while i < gone.len()
            invariant
                i <= gone@.len(),
                self.wf(),
                gone@.no_duplicates(),
                forall|j: int| 0 <= j < gone@.len() ==> v.blocks.contains_key(#[trigger] gone@[j]),
                self@.blocks == v.blocks.remove_keys(gone@.take(i as int).to_set()),
                self@.days == v.days,
                self@.loaded == v.loaded,
                self@.last_day == v.last_day,
            decreases gone@.len() - i,
        {
            let key: u32 = gone[i];
            assert(!gone@.take(i as int).contains(key));
            self.drop_block(key);
            proof {
                let next = gone@.take(i + 1);
                assert(next =~= gone@.take(i as int).push(key));
                assert forall|k: u32| next.to_set().contains(k) <==> gone@.take(
                    i as int,
                ).to_set().contains(k) || k == key by {
                    if next.contains(k) {
                        let j = choose|j: int| 0 <= j < next.len() && next[j] == k;
                        if j < i {
                            assert(gone@.take(i as int)[j] == k);
                        }
                    }
                    if gone@.take(i as int).contains(k) {
                        let j = choose|j: int| 0 <= j < i && gone@.take(i as int)[j] == k;
                        assert(next[j] == k);
                    }
                    assert(next[i as int] == key);
                }
                assert(self@.blocks =~= v.blocks.remove_keys(next.to_set()));
            }
            i += 1;
        }
        assert(gone@.take(i as int) =~= gone@);
        let ghost blocks = self@.blocks;
        let mut j: usize = 0;
        assert(self@.days =~= renewed_days(v.days, blocks, gone@.take(0).to_set()));
        while j < gone.len()
            invariant
                j <= gone@.len(),
                self.wf(),
                forall|k: int| 0 <= k < gone@.len() ==> v.blocks.contains_key(#[trigger] gone@[k]),
                forall|k: u32| #[trigger]
                    v.blocks.contains_key(k) ==> valid_key(k) && v.loaded.contains(key_day(k)),
                self@.blocks == blocks,
                self@.loaded == v.loaded,
                self@.last_day == v.last_day,
                self@.days == renewed_days(v.days, blocks, gone@.take(j as int).to_set()),
            decreases gone@.len() - j,
        {
            let key: u32 = gone[j];
            let day: u16 = (key / 65536) as u16;
            match self.subtree_root(day) {
                Some(root) => {
                    self.put_day(day, root);
                },
                None => {},
            }
            proof {
                let now = gone@.take(j as int);
                let next = gone@.take(j + 1);
                assert(next =~= now.push(key));
                assert forall|d: u16| loses_block(next.to_set(), d) <==> loses_block(
                    now.to_set(),
                    d,
                ) || d == day by {
                    if loses_block(next.to_set(), d) {
                        let k = choose|k: u32| #[trigger]
                            next.to_set().contains(k) && key_day(k) == d;
                        let m = choose|m: int| 0 <= m < next.len() && next[m] == k;
                        if m < j {
                            assert(now[m] == k);
                            assert(now.to_set().contains(k));
                        }
                    }
                    if loses_block(now.to_set(), d) {
                        let k = choose|k: u32| #[trigger]
                            now.to_set().contains(k) && key_day(k) == d;
                        let m = choose|m: int| 0 <= m < now.len() && now[m] == k;
                        assert(next[m] == k);
                        assert(next.to_set().contains(k));
                    }
                    assert(next[j as int] == key);
                    assert(next.to_set().contains(key));
                }
                assert(self@.days =~= renewed_days(v.days, blocks, next.to_set()));
            }
            j += 1;
        }
        assert(gone@.take(j as int) =~= gone@);
    }
}

/// Day roots from one day up to another, by day.
pub open spec fn listed_days(days: Map<u16, B256>, from: nat, to: nat) -> Seq<(u16, B256)>
    decreases to - from,
{
    if to <= from {
        Seq::empty()
    } else {
        let rest = listed_days(days, from, (to - 1) as nat);
        let day = (to - 1) as u16;
        if days.contains_key(day) {
            rest.push((day, days[day]))
        } else {
            rest
        }
    }
}

/// Roots and leaf counts of a day's blocks before a position, by position.
pub open spec fn listed_blocks(blocks: Map<u32, (B256, u32)>, day: u16, to: nat) -> Seq<
    (u16, B256, u32),
>
    decreases to,
{
    if to == 0 {
        Seq::empty()
    } else {
        let rest = listed_blocks(blocks, day, (to - 1) as nat);
        let key = block_key(day as int, to - 1);
        if blocks.contains_key(key) {
            rest.push(((to - 1) as u16, blocks[key].0, blocks[key].1))
        } else {
            rest
        }
    }
}

/// The day roots that the first `count` entries give.
pub open spec fn given_days(list: Seq<(u16, B256, u32, u64)>, count: nat) -> Map<u16, B256>
    decreases count,
{
    if count == 0 {
        Map::empty()
    } else {
        given_days(list, (count - 1) as nat).insert(list[count - 1].0, list[count - 1].1)
    }
}

/// The blocks that the first `count` entries give.
pub open spec fn given_blocks(list: Seq<(u16, u16, u64, B256, u32)>, count: nat) -> Map<
    u32,
    (B256, u32),
>
    decreases count,
{
    if count == 0 {
        Map::empty()
    } else {
        let entry = list[count - 1];
        given_blocks(list, (count - 1) as nat).insert(
            block_key(entry.0 as int, entry.1 as int),
            (entry.3, entry.4),
        )
    }
}

/// The days of the first `count` entries.
pub open spec fn given_loaded(list: Seq<(u16, u16, u64, B256, u32)>, count: nat) -> Set<u16>
    decreases count,
{
    if count == 0 {
        Set::empty()
    } else {
        given_loaded(list, (count - 1) as nat).insert(list[count - 1].0)
    }
}

/// The latest day of the first `count` entries.
pub open spec fn latest_day(list: Seq<(u16, u16, u64, B256, u32)>, count: nat) -> Option<u16>
    decreases count,
{
    if count == 0 {
        None
    } else {
        let day = list[count - 1].0;
        match latest_day(list, (count - 1) as nat) {
            Some(last) => if last < day {
                Some(day)
            } else {
                Some(last)
            },
            None => Some(day),
        }
    }
}

/// Day roots as given, or else as they follow from the day's blocks.
pub open spec fn completed_days(
    given: Map<u16, B256>,
    blocks: Map<u32, (B256, u32)>,
    loaded: Set<u16>,
) -> Map<u16, B256> {
    Map::new(
        |d: u16| given.contains_key(d) || loaded.contains(d),
        |d: u16|
            if given.contains_key(d) {
                given[d]
            } else {
                day_root_of(blocks, d)
            },
    )
}

/// What a tracker holds that is restored from day roots and blocks.
pub open spec fn restored(
    day_roots: Seq<(u16, B256, u32, u64)>,
    block_roots: Seq<(u16, u16, u64, B256, u32)>,
) -> HierarchyView {
    let blocks = given_blocks(block_roots, block_roots.len());
    let loaded = given_loaded(block_roots, block_roots.len());
    HierarchyView {
        blocks,
        days: completed_days(given_days(day_roots, day_roots.len()), blocks, loaded),
        loaded,
        last_day: latest_day(block_roots, block_roots.len()),
    }
}

/// The day of every entry is among the days of the entries.
proof fn lemma_loaded_contains(list: Seq<(u16, u16, u64, B256, u32)>, i: int, count: nat)
    requires
        0 <= i < count,
    ensures
        given_loaded(list, count).contains(list[i].0),
    decreases count,
{
    if i < count - 1 {
        lemma_loaded_contains(list, i, (count - 1) as nat);
    }
}

/// The siblings of a block's position lead from the block's root to the anchor that there
/// is once that root is set there.
pub proof fn law_path_leads_to_block_anchor(
    v: HierarchyView,
    day: u16,
    block_in_day: u16,
    block_root: B256,
    leaf_count: u32,
)
    requires
        day < 32768,
        block_in_day < 8192,
    ensures
        climb(
            block_root,
            day * 8192 + block_in_day,
            position_path(v, day, block_in_day),
            28,
        ) == day_anchor(with_block(v, day, block_in_day, block_root, leaf_count).days),
{
    let after = with_block(v, day, block_in_day, block_root, leaf_count);
    let low = sibling_path(day_leaves(v.blocks, day), 13, block_in_day as int);
    let high = sibling_path(day_tree_leaves(v.days), 15, day as int);
    lemma2_to64();
    lemma_climb_concat(block_root, day as int, block_in_day as int, low, high, 15);
    law_path_leads_to_root(day_leaves(v.blocks, day), 13, block_in_day as int, block_root);
    assert forall|i: int| leaf_of(
        day_leaves(v.blocks, day).insert(block_in_day as int, block_root),
        i,
    ) == leaf_of(day_leaves(after.blocks, day), i) by {
        lemma_day_leaves_insert(
            v.blocks,
            day,
            block_in_day,
            (block_root, leaf_count),
            day,
            i,
        );
    }
    lemma_same_tree(
        day_leaves(v.blocks, day).insert(block_in_day as int, block_root),
        day_leaves(after.blocks, day),
        13,
        0,
    );
    let root = day_root_of(after.blocks, day);
    law_path_leads_to_root(day_tree_leaves(v.days), 15, day as int, root);
    lemma_same_tree(
        day_tree_leaves(v.days).insert(day as int, root),
        day_tree_leaves(after.days),
        15,
        0,
    );
}

/// What a new tracker holds once the first `count` of a list of blocks were inserted, each
/// given by its day, its position in the day, its root and its leaf count.
pub open spec fn inserted(list: Seq<(u16, u16, B256, u32)>, count: nat) -> HierarchyView
    decreases count,
{
    if count == 0 {
        HierarchyView {
            blocks: Map::empty(),
            days: Map::empty(),
            loaded: Set::empty(),
            last_day: None,
        }
    } else {
        let (day, block_in_day, block_root, leaf_count) = list[count - 1];
        with_block(inserted(list, (count - 1) as nat), day, block_in_day, block_root, leaf_count)
    }
}

/// Whether a day has a block.
pub open spec fn has_block(blocks: Map<u32, (B256, u32)>, day: u16) -> bool {
    exists|key: u32| #[trigger] blocks.contains_key(key) && key_day(key) == day
}

/// The day roots that follow from blocks: one for each day that has a block.
pub open spec fn days_of_blocks(blocks: Map<u32, (B256, u32)>) -> Map<u16, B256> {
    Map::new(|d: u16| has_block(blocks, d), |d: u16| day_root_of(blocks, d))
}

/// The key of a block stands for its day.
proof fn lemma_key_day(day: u16, block_in_day: int)
    requires
        0 <= block_in_day < 65536,
    ensures
        key_day(block_key(day as int, block_in_day)) == day,
{
}

/// In a tracker into which blocks were only inserted, the day roots follow from the blocks.
proof fn lemma_inserted_days(list: Seq<(u16, u16, B256, u32)>, count: nat)
    ensures
        inserted(list, count).days == days_of_blocks(inserted(list, count).blocks),
    decreases count,
{
    let after = inserted(list, count);
    if count > 0 {
        let before = inserted(list, (count - 1) as nat);
        lemma_inserted_days(list, (count - 1) as nat);
        let (day, block_in_day, block_root, leaf_count) = list[count - 1];
        let key = block_key(day as int, block_in_day as int);
        lemma_key_day(day, block_in_day as int);
        assert(after.blocks.contains_key(key));
        assert forall|d: u16| #[trigger]
            after.days.contains_key(d) <==> days_of_blocks(after.blocks).contains_key(d) by {
            if d != day {
                if has_block(before.blocks, d) {
                    let k = choose|k: u32| #[trigger]
                        before.blocks.contains_key(k) && key_day(k) == d;
                    assert(after.blocks.contains_key(k));
                }
                if has_block(after.blocks, d) {
                    let k = choose|k: u32| #[trigger]
                        after.blocks.contains_key(k) && key_day(k) == d;
                    assert(before.blocks.contains_key(k));
                }
            }
        }
        assert forall|d: u16| #[trigger] after.days.contains_key(d) implies after.days[d]
            == day_root_of(after.blocks, d) by {
            if d != day {
                assert forall|i: int| leaf_of(day_leaves(before.blocks, d), i) == leaf_of(
                    day_leaves(after.blocks, d),
                    i,
                ) by {
                    lemma_day_leaves_insert(
                        before.blocks,
                        day,
                        block_in_day,
                        (block_root, leaf_count),
                        d,
                        i,
                    );
                }
                lemma_same_tree(day_leaves(before.blocks, d), day_leaves(after.blocks, d), 13, 0);
            }
        }
    } else {
        assert forall|d: u16| !days_of_blocks(after.blocks).contains_key(d) by {}
    }
    assert(after.days =~= days_of_blocks(after.blocks));
}

/// Taking blocks out of a tracker into which blocks were only inserted leaves the anchor of a
/// new tracker into which only the kept blocks were inserted, where every day that loses a
/// block keeps one.
pub proof fn law_removal_leaves_anchor_of_kept_blocks(
    list: Seq<(u16, u16, B256, u32)>,
    gone: Set<u32>,
    kept: Seq<(u16, u16, B256, u32)>,
)
    requires
        forall|key: u32| #[trigger]
            gone.contains(key) ==> inserted(list, list.len()).blocks.contains_key(key),
        inserted(kept, kept.len()).blocks == inserted(list, list.len()).blocks.remove_keys(gone),
        forall|d: u16| #[trigger]
            loses_block(gone, d) ==> has_block(inserted(kept, kept.len()).blocks, d),
    ensures
        ({
            let before = inserted(list, list.len());
            let alone = inserted(kept, kept.len());
            let days = renewed_days(before.days, alone.blocks, gone);
            days == alone.days && day_anchor(days) == day_anchor(alone.days)
        }),
{
    let before = inserted(list, list.len());
    let alone = inserted(kept, kept.len());
    let days = renewed_days(before.days, alone.blocks, gone);
    lemma_inserted_days(list, list.len());
    lemma_inserted_days(kept, kept.len());
    assert forall|d: u16| #[trigger] days.contains_key(d) <==> alone.days.contains_key(d) by {
        if has_block(before.blocks, d) && !loses_block(gone, d) {
            let k = choose|k: u32| #[trigger] before.blocks.contains_key(k) && key_day(k) == d;
            assert(!gone.contains(k));
            assert(alone.blocks.contains_key(k));
        }
        if has_block(alone.blocks, d) {
            let k = choose|k: u32| #[trigger] alone.blocks.contains_key(k) && key_day(k) == d;
            assert(before.blocks.contains_key(k));
        }
    }
    assert forall|d: u16| #[trigger] days.contains_key(d) implies days[d] == alone.days[d] by {
        if !loses_block(gone, d) {
            assert forall|i: int| leaf_of(day_leaves(before.blocks, d), i) == leaf_of(
                day_leaves(alone.blocks, d),
                i,
            ) by {
                if 0 <= i < 65536 {
                    lemma_key_day(d, i);
                    assert(!gone.contains(block_key(d as int, i)));
                }
            }
            lemma_same_tree(day_leaves(before.blocks, d), day_leaves(alone.blocks, d), 13, 0);
        }
    }
    assert(days =~= alone.days);
}

impl Default for HierarchicalRootTracker {
    fn default() -> (r: Self)
        ensures
            r.wf(),
            r@.blocks == Map::<u32, (B256, u32)>::empty(),
            r@.days == Map::<u16, B256>::empty(),
            r@.last_day is None,
    {
        Self::new()
    }
}

/// A block is entered at its day and its place in the day, and nowhere else; the root of its day
/// becomes that of a tree of thirteen levels over the day's blocks, and the roots of other days
/// stay.
pub proof fn law_block_is_entered_in_its_day(
    v: HierarchyView,
    day: u16,
    block_in_day: u16,
    block_root: B256,
    leaf_count: u32,
    other_day: u16,
    other_block: u16,
)
    ensures
        ({
            let after = with_block(v, day, block_in_day, block_root, leaf_count);
            let key = block_key(day as int, block_in_day as int);
            let other = block_key(other_day as int, other_block as int);
            &&& after.blocks.contains_key(key)
            &&& after.blocks[key] == (block_root, leaf_count)
            &&& (other_day, other_block) != (day, block_in_day) ==> (after.blocks.contains_key(other)
                <==> v.blocks.contains_key(other)) && (v.blocks.contains_key(other)
                ==> after.blocks[other] == v.blocks[other])
            &&& after.days.contains_key(day)
            &&& other_day != day ==> (after.days.contains_key(other_day) <==> v.days.contains_key(
                other_day,
            )) && (v.days.contains_key(other_day) ==> after.days[other_day] == v.days[other_day])
            &&& after.last_day == Some(day)
            &&& forall|leaves: Map<int, B256>|
                (forall|b: int| #[trigger]
                    leaves.contains_key(b) <==> 0 <= b < 65536 && after.blocks.contains_key(
                        (day * 65536 + b) as u32,
                    )) && (forall|b: int|
                    leaves.contains_key(b) ==> #[trigger] leaves[b] == after.blocks[(day * 65536
                        + b) as u32].0) ==> after.days[day] == #[trigger] tree_root(leaves, 13)
        }),
{
    let after = with_block(v, day, block_in_day, block_root, leaf_count);
    assert forall|leaves: Map<int, B256>|
        (forall|b: int| #[trigger]
            leaves.contains_key(b) <==> 0 <= b < 65536 && after.blocks.contains_key(
                (day * 65536 + b) as u32,
            )) && (forall|b: int|
            leaves.contains_key(b) ==> #[trigger] leaves[b] == after.blocks[(day * 65536
                + b) as u32].0) implies after.days[day] == #[trigger] tree_root(leaves, 13) by {
        assert(leaves =~= day_leaves(after.blocks, day));
    }
}

/// The days that are listed are those between the bounds that have a root, each once with its
/// root and in their order.
pub proof fn law_listed_days(days: Map<u16, B256>, from: nat, to: nat, day: u16)
    requires
        to <= 65536,
    ensures
        from <= day < to && days.contains_key(day) ==> listed_days(days, from, to).contains(
            (day, days[day]),
        ),
        forall|i: int|
            0 <= i < listed_days(days, from, to).len() ==> {
                let (d, root) = #[trigger] listed_days(days, from, to)[i];
                from <= d < to && days.contains_key(d) && days[d] == root
            },
        forall|i: int, j: int|
            0 <= i < j < listed_days(days, from, to).len() ==> (#[trigger] listed_days(
                days,
                from,
                to,
            )[i]).0 < (#[trigger] listed_days(days, from, to)[j]).0,
    decreases to - from,
{
    if to > from {
        let before = listed_days(days, from, (to - 1) as nat);
        let all = listed_days(days, from, to);
        law_listed_days(days, from, (to - 1) as nat, day);
        if from <= day < to && days.contains_key(day) {
            if day < to - 1 {
                let i = choose|i: int| 0 <= i < before.len() && before[i] == (day, days[day]);
                assert(all[i] == before[i]);
            } else {
                assert(all[before.len() as int] == (day, days[day]));
            }
        }
        assert forall|i: int| 0 <= i < all.len() implies {
            let (d, root) = #[trigger] all[i];
            from <= d < to && days.contains_key(d) && days[d] == root
        } by {
            if i < before.len() {
                assert(all[i] == before[i]);
            }
        }
        assert forall|i: int, j: int| 0 <= i < j < all.len() implies (#[trigger] all[i]).0 < (
        #[trigger] all[j]).0 by {
            assert(all[i] == before[i]);
            if j < before.len() {
                assert(all[j] == before[j]);
            }
        }
    }
}

/// The blocks of a day that are listed are those before the bound, each once with its root and its
/// count of leaves and in their order.
pub proof fn law_listed_blocks(blocks: Map<u32, (B256, u32)>, day: u16, to: nat, block_in_day: u16)
    requires
        to <= 65536,
    ensures
        ({
            let key = block_key(day as int, block_in_day as int);
            block_in_day < to && blocks.contains_key(key) ==> listed_blocks(
                blocks,
                day,
                to,
            ).contains((block_in_day, blocks[key].0, blocks[key].1))
        }),
        forall|i: int|
            0 <= i < listed_blocks(blocks, day, to).len() ==> {
                let (b, root, count) = #[trigger] listed_blocks(blocks, day, to)[i];
                let key = block_key(day as int, b as int);
                b < to && blocks.contains_key(key) && blocks[key] == (root, count)
            },
        forall|i: int, j: int|
            0 <= i < j < listed_blocks(blocks, day, to).len() ==> (#[trigger] listed_blocks(
                blocks,
                day,
                to,
            )[i]).0 < (#[trigger] listed_blocks(blocks, day, to)[j]).0,
    decreases to,
{
    if to > 0 {
        let before = listed_blocks(blocks, day, (to - 1) as nat);
        let all = listed_blocks(blocks, day, to);
        let key = block_key(day as int, block_in_day as int);
        law_listed_blocks(blocks, day, (to - 1) as nat, block_in_day);
        if block_in_day < to && blocks.contains_key(key) {
            let entry = (block_in_day, blocks[key].0, blocks[key].1);
            if block_in_day < to - 1 {
                let i = choose|i: int| 0 <= i < before.len() && before[i] == entry;
                assert(all[i] == before[i]);
            } else {
                assert(all[before.len() as int] == entry);
            }
        }
        assert forall|i: int| 0 <= i < all.len() implies {
            let (b, root, count) = #[trigger] all[i];
            let key = block_key(day as int, b as int);
            b < to && blocks.contains_key(key) && blocks[key] == (root, count)
        } by {
            if i < before.len() {
                assert(all[i] == before[i]);
            }
        }
        assert forall|i: int, j: int| 0 <= i < j < all.len() implies (#[trigger] all[i]).0 < (
        #[trigger] all[j]).0 by {
            assert(all[i] == before[i]);
            if j < before.len() {
                assert(all[j] == before[j]);
            }
        }
    }
}

/// A rollback takes out exactly the blocks whose number is known and not below the first that
/// goes, where what is said of a block's number depends on the block alone.
pub proof fn law_rolled_back_blocks<F: Fn(u16, u16) -> Option<u64>>(
    blocks: Map<u32, (B256, u32)>,
    from_block_nr: u64,
    get_block_nr: F,
    gone: Set<u32>,
    numbers: Map<u32, Option<u64>>,
    day: u16,
    block_in_day: u16,
)
    requires
        chosen_to_go(blocks, from_block_nr, get_block_nr, gone),
        forall|d: u16, b: u16, answer: Option<u64>| #[trigger]
            call_ensures(get_block_nr, (d, b), answer) ==> answer == numbers[(d * 65536
                + b) as u32],
        blocks.contains_key((day * 65536 + block_in_day) as u32),
    ensures
        gone.contains((day * 65536 + block_in_day) as u32) <==> (numbers[(day * 65536
            + block_in_day) as u32] matches Some(nr) && nr >= from_block_nr),
{
    let key = (day * 65536 + block_in_day) as u32;
    assert(key_day(key) == day && key_block(key) == block_in_day);
    let answer = choose|answer: Option<u64>|
        call_ensures(get_block_nr, (key_day(key), key_block(key)), answer) && (gone.contains(key)
            <==> #[trigger] sends_away(answer, from_block_nr));
    assert(call_ensures(get_block_nr, (day, block_in_day), answer));
}

/// What is restored holds each block as the list gives it last, the root that is given for a day,
/// or else that over its blocks, and the latest of the days that have blocks.
pub proof fn law_restored(
    day_roots: Seq<(u16, B256, u32, u64)>,
    block_roots: Seq<(u16, u16, u64, B256, u32)>,
    i: int,
)
    requires
        0 <= i < block_roots.len(),
        forall|k: int|
            i < k < block_roots.len() ==> ((#[trigger] block_roots[k]).0, block_roots[k].1) != (
                block_roots[i].0,
                block_roots[i].1,
            ),
    ensures
        ({
            let v = restored(day_roots, block_roots);
            let (day, block_in_day, _, root, count) = block_roots[i];
            let key = (day * 65536 + block_in_day) as u32;
            &&& v.blocks.contains_key(key)
            &&& v.blocks[key] == (root, count)
            &&& v.loaded.contains(day)
            &&& v.days.contains_key(day)
            &&& (forall|k: int| 0 <= k < day_roots.len() ==> (#[trigger] day_roots[k]).0 != day)
                ==> v.days[day] == day_root_of(v.blocks, day)
            &&& v.last_day matches Some(last)
            &&& last >= day
        }),
{
    lemma_given_block(block_roots, block_roots.len(), i);
    lemma_loaded_contains(block_roots, i, block_roots.len());
    lemma_latest_day(block_roots, block_roots.len(), i);
    lemma_given_day(day_roots, day_roots.len(), block_roots[i].0);
}

/// A block that is given last stays.
proof fn lemma_given_block(list: Seq<(u16, u16, u64, B256, u32)>, count: nat, i: int)
    requires
        0 <= i < count <= list.len(),
        forall|k: int|
            i < k < list.len() ==> ((#[trigger] list[k]).0, list[k].1) != (list[i].0, list[i].1),
    ensures
        ({
            let key = (list[i].0 * 65536 + list[i].1) as u32;
            given_blocks(list, count).contains_key(key) && given_blocks(list, count)[key] == (
                list[i].3,
                list[i].4,
            )
        }),
    decreases count,
{
    if i < count - 1 {
        lemma_given_block(list, (count - 1) as nat, i);
        let last = list[count - 1];
        assert((last.0, last.1) != (list[i].0, list[i].1));
    }
}

/// The latest day is not before any that is given.
proof fn lemma_latest_day(list: Seq<(u16, u16, u64, B256, u32)>, count: nat, i: int)
    requires
        0 <= i < count <= list.len(),
    ensures
        latest_day(list, count) matches Some(last) && last >= list[i].0,
    decreases count,
{
    if i < count - 1 {
        lemma_latest_day(list, (count - 1) as nat, i);
    }
}

/// A day that is not given has no given root.
proof fn lemma_given_day(list: Seq<(u16, B256, u32, u64)>, count: nat, day: u16)
    requires
        count <= list.len(),
    ensures
        given_days(list, count).contains_key(day) <==> exists|k: int|
            0 <= k < count && (#[trigger] list[k]).0 == day,
    decreases count,
{
    if count > 0 {
        let before = (count - 1) as nat;
        lemma_given_day(list, before, day);
        if list[count - 1].0 != day && given_days(list, count).contains_key(day) {
            let k = choose|k: int| 0 <= k < before && (#[trigger] list[k]).0 == day;
            assert(list[k].0 == day);
        }
    }
}

/// The root that is given for a day last is the one that the day has when it is restored, and the
/// latest day is one of those that have blocks.
pub proof fn law_restored_day(
    day_roots: Seq<(u16, B256, u32, u64)>,
    block_roots: Seq<(u16, u16, u64, B256, u32)>,
    k: int,
)
    ensures
        0 <= k < day_roots.len() && (forall|m: int|
            k < m < day_roots.len() ==> (#[trigger] day_roots[m]).0 != day_roots[k].0) ==> {
            let v = restored(day_roots, block_roots);
            v.days.contains_key(day_roots[k].0) && v.days[day_roots[k].0] == day_roots[k].1
        },
        restored(day_roots, block_roots).last_day matches Some(last) ==> exists|i: int|
            0 <= i < block_roots.len() && (#[trigger] block_roots[i]).0 == last,
        block_roots.len() == 0 ==> restored(day_roots, block_roots).last_day is None,
{
    if 0 <= k < day_roots.len() && (forall|m: int|
        k < m < day_roots.len() ==> (#[trigger] day_roots[m]).0 != day_roots[k].0) {
        lemma_given_day_root(day_roots, day_roots.len(), k);
    }
    lemma_latest_day_given(block_roots, block_roots.len());
}

/// A day's root that is given last stays.
proof fn lemma_given_day_root(list: Seq<(u16, B256, u32, u64)>, count: nat, k: int)
    requires
        0 <= k < count <= list.len(),
        forall|m: int| k < m < list.len() ==> (#[trigger] list[m]).0 != list[k].0,
    ensures
        given_days(list, count).contains_key(list[k].0),
        given_days(list, count)[list[k].0] == list[k].1,
    decreases count,
{
    if k < count - 1 {
        lemma_given_day_root(list, (count - 1) as nat, k);
        assert(list[count - 1].0 != list[k].0);
    }
}

/// The latest day is one that is given.
proof fn lemma_latest_day_given(list: Seq<(u16, u16, u64, B256, u32)>, count: nat)
    requires
        count <= list.len(),
    ensures
        latest_day(list, count) matches Some(last) ==> exists|i: int|
            0 <= i < count && (#[trigger] list[i]).0 == last,
    decreases count,
{
    if count > 0 {
        let before = (count - 1) as nat;
        lemma_latest_day_given(list, before);
        match latest_day(list, before) {
            Some(last) => {
                let i = choose|i: int| 0 <= i < before && (#[trigger] list[i]).0 == last;
                assert(list[i].0 == last);
                assert(list[count - 1].0 == list[count - 1].0);
            },
            None => {
                assert(list[count - 1].0 == list[count - 1].0);
            },
        }
    }
}

} // verus!
