//! Sparse binary Merkle trees over the Poseidon hash.
//!
//! Leaves that were never set are zero, so that a tree of any depth exists without
//! being stored: only nodes above leaves that were set are kept.

use crate::types::{
    be_bytes, bn254_order, bn254_scalar_order, lemma_b256_ext, lemma_be_value_of_bytes,
    lemma_pow_256_32, lemma_u256_bounds, lemma_zero_word, zero_word, B256, U256,
};
use std::collections::HashMap;
use vstd::arithmetic::div_mod::lemma_div_denominator;
use vstd::arithmetic::power2::{
    lemma2_to64, lemma_pow2_pos, lemma_pow2_strictly_increases, lemma_pow2_unfold, pow2,
};
use vstd::bits::lemma_u64_shl_is_mul;
use vstd::prelude::*;

verus! {

broadcast use vstd::std_specs::hash::group_hash_axioms;

/// The Poseidon hash, with the circom parameters, of two elements of the BN254 scalar
/// field.
pub uninterp spec fn poseidon_digest(a: nat, b: nat) -> nat;

/// The word that spells a number.
pub open spec fn word(value: nat) -> B256 {
    choose|w: B256| w@ == be_bytes(value, 32)
}

/// The word that two words hash to, each being taken as an element of the BN254 scalar
/// field.
pub open spec fn hash2(a: B256, b: B256) -> B256 {
    word(poseidon_digest(a.value() % bn254_order()@, b.value() % bn254_order()@))
}

/// `semaphore_rs_poseidon::poseidon::hash2`: the Poseidon hash of two elements of the
/// BN254 scalar field, which is such an element too. Numbers outside the field are not
/// hashed.
#[verifier::external_body]
fn poseidon_pair(a: &U256, b: &U256) -> (r: U256)
    requires
        a@ < bn254_order()@,
        b@ < bn254_order()@,
    ensures
        r@ == poseidon_digest(a@, b@),
        r@ < bn254_order()@,
{
    let x = alloy_primitives::U256::from_limbs([a.l0, a.l1, a.l2, a.l3]);
    let y = alloy_primitives::U256::from_limbs([b.l0, b.l1, b.l2, b.l3]);
    let [l0, l1, l2, l3] = semaphore_rs_poseidon::poseidon::hash2(x, y).into_limbs();
    U256 { l0, l1, l2, l3 }
}

/// The Poseidon hash of two words, each being reduced modulo the order of the BN254
/// scalar field first.
pub fn poseidon2(a: B256, b: B256) -> (r: B256)
    ensures
        r == hash2(a, b),
        r@ == be_bytes(
            poseidon_digest(a.value() % bn254_order()@, b.value() % bn254_order()@),
            32,
        ),
        r.value() < bn254_order()@,
{
    let order = bn254_scalar_order();
    let x = U256::from_be_bytes(&a).rem(&order);
    let y = U256::from_be_bytes(&b).rem(&order);
    let digest = poseidon_pair(&x, &y);
    let r = digest.to_be_bytes();
    proof {
        lemma_pow_256_32();
        lemma_u256_bounds(digest, order);
        lemma_be_value_of_bytes(digest@, 32);
        lemma_b256_ext(hash2(a, b), r);
    }
    r
}

/// Root of an empty tree of depth `level`.
pub open spec fn zero_hash(level: nat) -> B256
    decreases level,
{
    if level == 0 {
        zero_word()
    } else {
        hash2(zero_hash((level - 1) as nat), zero_hash((level - 1) as nat))
    }
}

/// A leaf; zero where none was set.
pub open spec fn leaf_of(leaves: Map<int, B256>, index: int) -> B256 {
    if leaves.contains_key(index) {
        leaves[index]
    } else {
        zero_word()
    }
}

/// Node `index` at a level, counted from the leaves.
pub open spec fn node(leaves: Map<int, B256>, level: nat, index: int) -> B256
    decreases level,
{
    if level == 0 {
        leaf_of(leaves, index)
    } else {
        hash2(
            node(leaves, (level - 1) as nat, 2 * index),
            node(leaves, (level - 1) as nat, 2 * index + 1),
        )
    }
}

/// Root of a tree of a given depth.
pub open spec fn tree_root(leaves: Map<int, B256>, depth: nat) -> B256 {
    node(leaves, depth, 0)
}

/// The node, at a level, above leaf `index`.
pub open spec fn ancestor(index: int, level: nat) -> int {
    index / pow2(level) as int
}

/// The other child of the parent of node `index`.
pub open spec fn other_child(index: int) -> int {
    if index % 2 == 0 {
        index + 1
    } else {
        index - 1
    }
}

/// The siblings of the nodes above a leaf, from the leaf up.
pub open spec fn sibling_path(leaves: Map<int, B256>, depth: nat, index: int) -> Seq<B256> {
    Seq::new(
        depth,
        |level: int| node(leaves, level as nat, other_child(ancestor(index, level as nat))),
    )
}

/// What `start`, taken as leaf `index`, hashes to over `levels` levels of siblings.
pub open spec fn climb(start: B256, index: int, path: Seq<B256>, levels: nat) -> B256
    decreases levels,
{
    if levels == 0 {
        start
    } else {
        let level = (levels - 1) as nat;
        let below = climb(start, index, path, level);
        if ancestor(index, level) % 2 == 0 {
            hash2(below, path[level as int])
        } else {
            hash2(path[level as int], below)
        }
    }
}

/// The ancestor one level up is half the ancestor.
pub proof fn lemma_ancestor_step(index: int, level: nat)
    requires
        index >= 0,
    ensures
        ancestor(index, level + 1) == ancestor(index, level) / 2,
        ancestor(index, level) >= 0,
{
    lemma_pow2_pos(level);
    lemma_pow2_unfold(level + 1);
    lemma_div_denominator(index, pow2(level) as int, 2);
    assert(pow2(level) * 2 == pow2(level + 1));
    assert(index / pow2(level) as int >= 0) by (nonlinear_arith)
        requires
            index >= 0,
            pow2(level) > 0,
    ;
}

/// An ancestor lies within its level.
pub proof fn lemma_ancestor_bound(index: int, level: nat, depth: nat)
    requires
        0 <= index < pow2(depth),
        level <= depth,
    ensures
        0 <= ancestor(index, level) < pow2((depth - level) as nat),
    decreases level,
{
    if level == 0 {
        lemma2_to64();
        assert(ancestor(index, 0) == index);
    } else {
        let below = (level - 1) as nat;
        lemma_ancestor_bound(index, below, depth);
        lemma_ancestor_step(index, below);
        lemma_pow2_unfold((depth - below) as nat);
    }
}

/// Setting a leaf changes no node but its ancestors.
pub proof fn lemma_node_unaffected(
    leaves: Map<int, B256>,
    index: int,
    leaf: B256,
    level: nat,
    at: int,
)
    requires
        index >= 0,
        at != ancestor(index, level),
    ensures
        node(leaves.insert(index, leaf), level, at) == node(leaves, level, at),
    decreases level,
{
    if level == 0 {
        lemma2_to64();
        assert(ancestor(index, 0) == index);
    } else {
        let below = (level - 1) as nat;
        lemma_ancestor_step(index, below);
        lemma_node_unaffected(leaves, index, leaf, below, 2 * at);
        lemma_node_unaffected(leaves, index, leaf, below, 2 * at + 1);
    }
}

/// A tree without leaves consists of zero hashes.
pub proof fn lemma_node_empty(level: nat, at: int)
    ensures
        node(Map::empty(), level, at) == zero_hash(level),
    decreases level,
{
    if level > 0 {
        lemma_node_empty((level - 1) as nat, 2 * at);
        lemma_node_empty((level - 1) as nat, 2 * at + 1);
    }
}

/// Climbing from a leaf over its siblings leads to the node above it in the tree that
/// has that leaf there.
pub proof fn lemma_climb(
    leaves: Map<int, B256>,
    depth: nat,
    index: int,
    leaf: B256,
    level: nat,
)
    requires
        index >= 0,
        level <= depth,
    ensures
        climb(leaf, index, sibling_path(leaves, depth, index), level) == node(
            leaves.insert(index, leaf),
            level,
            ancestor(index, level),
        ),
    decreases level,
{
    let set = leaves.insert(index, leaf);
    if level == 0 {
        lemma2_to64();
        assert(ancestor(index, 0) == index);
    } else {
        let below = (level - 1) as nat;
        lemma_climb(leaves, depth, index, leaf, below);
        lemma_ancestor_step(index, below);
        let a = ancestor(index, below);
        lemma_node_unaffected(leaves, index, leaf, below, other_child(a));
        assert(sibling_path(leaves, depth, index)[below as int] == node(
            set,
            below,
            other_child(a),
        ));
        if a % 2 == 0 {
            assert(2 * (a / 2) == a);
        } else {
            assert(2 * (a / 2) + 1 == a);
        }
    }
}

/// The siblings of a leaf lead from what is set there to the root of the tree with that
/// leaf: a membership proof verifies, and the root after a change can be told before
/// the change.
pub proof fn law_path_leads_to_root(leaves: Map<int, B256>, depth: nat, index: int, leaf: B256)
    requires
        0 <= index < pow2(depth),
    ensures
        climb(leaf, index, sibling_path(leaves, depth, index), depth) == tree_root(
            leaves.insert(index, leaf),
            depth,
        ),
        climb(
            leaf_of(leaves, index),
            index,
            sibling_path(leaves, depth, index),
            depth,
        ) == tree_root(leaves, depth),
{
    lemma_climb(leaves, depth, index, leaf, depth);
    lemma_climb(leaves, depth, index, leaf_of(leaves, index), depth);
    lemma_ancestor_bound(index, depth, depth);
    lemma2_to64();
    lemma_node_same(leaves, leaves.insert(index, leaf_of(leaves, index)), depth, 0);
}

/// Trees with the same leaves have the same nodes, whether a zero leaf was set or not.
pub proof fn lemma_node_same(a: Map<int, B256>, b: Map<int, B256>, level: nat, at: int)
    requires
        forall|i: int| leaf_of(a, i) == leaf_of(b, i),
    ensures
        node(a, level, at) == node(b, level, at),
    decreases level,
{
    if level > 0 {
        lemma_node_same(a, b, (level - 1) as nat, 2 * at);
        lemma_node_same(a, b, (level - 1) as nat, 2 * at + 1);
    }
}

/// Roots of empty trees of depths zero to `depth`.
pub fn compute_zero_hashes(depth: usize) -> (r: Vec<B256>)
    requires
        depth < usize::MAX,
    ensures
        r@.len() == depth + 1,
        forall|l: int| 0 <= l <= depth ==> #[trigger] r@[l] == zero_hash(l as nat),
{
    let mut hashes: Vec<B256> = Vec::new();
    hashes.push(B256::zero());
    let mut level: usize = 0;
    while level < depth
        invariant
            level <= depth,
            depth < usize::MAX,
            hashes@.len() == level + 1,
            forall|l: int| 0 <= l <= level ==> #[trigger] hashes@[l] == zero_hash(l as nat),
        decreases depth - level,
    {
        let h = poseidon2(hashes[level], hashes[level]);
        hashes.push(h);
        level += 1;
    }
    hashes
}

/// Why a tree refused an operation.
#[derive(Clone, Copy, Debug, PartialEq, Eq, Structural)]
pub enum MerkleError {
    /// The tree has no leaf of that index.
    IndexOutOfRange,
    /// All leaves are taken.
    TreeFull,
}

/// The siblings of the nodes above a leaf, from the leaf up.
#[derive(Debug)]
pub struct MerkleProof {
    pub siblings: Vec<B256>,
}

/// A sparse Merkle tree of fixed depth.
pub struct IncrementalMerkleTree {
    depth: usize,
    zero_hashes: Vec<B256>,
    /// The nodes above leaves that were set, by level and index.
    nodes: HashMap<u64, B256>,
    next_index: usize,
    leaves: Ghost<Map<int, B256>>,
}

/// Under what a node is stored.
spec fn node_key(level: int, index: int) -> int {
    level * 0x1_0000_0000 + index
}

impl IncrementalMerkleTree {
    /// Number of levels above the leaves.
    pub closed spec fn spec_depth(self) -> nat {
        self.depth as nat
    }

    /// The leaves that were set.
    pub closed spec fn leaves(self) -> Map<int, B256> {
        self.leaves@
    }

    /// Where the next leaf is appended.
    pub closed spec fn next(self) -> nat {
        self.next_index as nat
    }

    /// The root over the leaves.
    pub open spec fn spec_root(self) -> B256 {
        tree_root(self.leaves(), self.spec_depth())
    }

    spec fn stored(self, level: int, index: int) -> B256 {
        if self.nodes@.contains_key(node_key(level, index) as u64) {
            self.nodes@[node_key(level, index) as u64]
        } else {
            zero_hash(level as nat)
        }
    }

    /// Every node that is kept, or left out as a zero hash, is what the leaves below it
    /// hash to.
    pub closed spec fn wf(self) -> bool {
        &&& self.depth <= 31
        &&& self.next_index <= pow2(self.depth as nat)
        &&& self.zero_hashes@.len() == self.depth + 1
        &&& forall|l: int|
            0 <= l <= self.depth ==> #[trigger] self.zero_hashes@[l] == zero_hash(l as nat)
        &&& forall|l: int, i: int|
            0 <= l <= self.depth && 0 <= i < pow2((self.depth - l) as nat)
                ==> #[trigger] self.stored(l, i) == node(self.leaves@, l as nat, i)
    }

    /// Storing a node changes that node only.
    proof fn lemma_stored_update(self, pre: Self, level: int, index: int, value: B256)
        requires
            0 <= level <= 31,
            0 <= index < 0x1_0000_0000,
            self.nodes@ == pre.nodes@.insert(node_key(level, index) as u64, value),
        ensures
            forall|l: int, i: int|
                0 <= l <= 31 && 0 <= i < 0x1_0000_0000 ==> #[trigger] self.stored(l, i) == (if l
                    == level && i == index {
                    value
                } else {
                    pre.stored(l, i)
                }),
    {
        assert forall|l: int, i: int| 0 <= l <= 31 && 0 <= i < 0x1_0000_0000 && !(l == level && i
            == index) implies #[trigger] self.stored(l, i) == pre.stored(l, i) by {
            assert(node_key(l, i) != node_key(level, index));
            assert(node_key(l, i) as u64 != node_key(level, index) as u64);
        }
    }

    /// No level has more nodes than can be told apart.
    proof fn lemma_level_bounds(self)
        requires
            self.depth <= 31,
        ensures
            forall|l: int|
                0 <= l <= self.depth ==> #[trigger] pow2((self.depth - l) as nat) <= 0x8000_0000,
    {
        lemma2_to64();
        assert forall|l: int| 0 <= l <= self.depth implies #[trigger] pow2((self.depth - l) as nat)
            <= 0x8000_0000 by {
            if self.depth - l < 31 {
                lemma_pow2_strictly_increases((self.depth - l) as nat, 31);
            }
        }
    }

    /// What is kept of a node.
    fn lookup(&self, level: usize, index: usize) -> (r: B256)
        requires
            self.depth <= 31,
            self.zero_hashes@.len() == self.depth + 1,
            forall|l: int|
                0 <= l <= self.depth ==> #[trigger] self.zero_hashes@[l] == zero_hash(l as nat),
            level <= self.depth,
            index < 0x1_0000_0000,
        ensures
            r == self.stored(level as int, index as int),
    {
        let key: u64 = (level as u64) * 0x1_0000_0000 + index as u64;
        assert(key == node_key(level as int, index as int));
        match self.nodes.get(&key) {
            Some(value) => *value,
            None => self.zero_hashes[level],
        }
    }

    /// A well-formed tree is not too deep to count its leaves.
    pub proof fn lemma_depth_bound(self)
        requires
            self.wf(),
        ensures
            self.spec_depth() <= 31,
            self.next() <= pow2(self.spec_depth()),
            pow2(self.spec_depth()) <= 0x8000_0000,
    {
        lemma2_to64();
        if self.depth < 31 {
            lemma_pow2_strictly_increases(self.depth as nat, 31);
        }
    }

    /// An empty tree.
    pub fn new(depth: usize) -> (r: IncrementalMerkleTree)
        requires
            depth <= 31,
        ensures
            r.wf(),
            r.spec_depth() == depth,
            r.leaves() == Map::<int, B256>::empty(),
            r.next() == 0,
    {
        let tree = IncrementalMerkleTree {
            depth,
            zero_hashes: compute_zero_hashes(depth),
            nodes: HashMap::new(),
            next_index: 0,
            leaves: Ghost(Map::empty()),
        };
        proof {
            assert forall|l: int, i: int|
                0 <= l <= depth && 0 <= i < pow2(
                    (depth - l) as nat,
                ) implies #[trigger] tree.stored(l, i) == node(tree.leaves@, l as nat, i) by {
                lemma_node_empty(l as nat, i);
            }
        }
        tree
    }

    /// Number of leaves of the tree.
    fn capacity(&self) -> (r: u64)
        requires
            self.wf(),
        ensures
            r == pow2(self.spec_depth()),
            r <= 0x8000_0000,
    {
        proof {
            self.lemma_depth_bound();
            lemma_u64_shl_is_mul(1, self.depth as u64);
        }
        1u64 << (self.depth as u64)
    }

    /// Node `index` at a level.
    pub fn get_node(&self, level: usize, index: usize) -> (r: B256)
        requires
            self.wf(),
            level <= self.spec_depth(),
            index < pow2((self.spec_depth() - level) as nat),
        ensures
            r == node(self.leaves(), level as nat, index as int),
    {
        proof {
            self.lemma_depth_bound();
            if level > 0 {
                lemma_pow2_strictly_increases((self.depth - level) as nat, self.depth as nat);
            }
            assert(self.stored(level as int, index as int) == node(
                self.leaves@,
                level as nat,
                index as int,
            ));
        }
        self.lookup(level, index)
    }

    /// The root of the tree.
    pub fn root(&self) -> (r: B256)
        requires
            self.wf(),
        ensures
            r == self.spec_root(),
    {
        proof {
            lemma2_to64();
        }
        self.get_node(self.depth, 0)
    }

    /// Sets a leaf and renews the nodes above it.
    pub fn set_leaf(&mut self, index: usize, leaf: B256)
        requires
            old(self).wf(),
            index < pow2(old(self).spec_depth()),
        ensures
            final(self).wf(),
            final(self).spec_depth() == old(self).spec_depth(),
            final(self).leaves() == old(self).leaves().insert(index as int, leaf),
            final(self).next() == old(self).next(),
    {
        proof {
            self.lemma_depth_bound();
            lemma2_to64();
        }
        let ghost before = self.leaves@;
        let ghost after = before.insert(index as int, leaf);
        self.leaves = Ghost(after);
        let ghost start = *self;
        self.nodes.insert(index as u64, leaf);
        let mut level: usize = 0;
        let mut at: usize = index;
        proof {
            assert(ancestor(index as int, 0) == index);
            assert(node_key(0, index as int) as u64 == index as u64);
            self.lemma_stored_update(start, 0, index as int, leaf);
            self.lemma_level_bounds();
            assert forall|l: int, i: int|
                0 <= l <= 0 && 0 <= i < pow2((self.depth - l) as nat) implies #[trigger] self.stored(
                l,
                i,
            ) == node(after, l as nat, i) by {
                assert(start.stored(l, i) == old(self).stored(l, i));
            }
            assert forall|l: int, i: int|
                0 < l <= self.depth && 0 <= i < pow2(
                    (self.depth - l) as nat,
                ) implies #[trigger] self.stored(l, i) == node(before, l as nat, i) by {
                assert(start.stored(l, i) == old(self).stored(l, i));
            }
        }
        while level < self.depth
            invariant
                level <= self.depth,
                self.depth <= 31,
                self.depth == old(self).depth,
                self.next_index == old(self).next_index,
                self.zero_hashes == old(self).zero_hashes,
                self.zero_hashes@.len() == self.depth + 1,
                forall|l: int|
                    0 <= l <= self.depth ==> #[trigger] self.zero_hashes@[l] == zero_hash(l as nat),
                self.leaves@ == after,
                after == before.insert(index as int, leaf),
                index < pow2(self.depth as nat),
                pow2(self.depth as nat) <= 0x8000_0000,
                at == ancestor(index as int, level as nat),
                at < pow2((self.depth - level) as nat),
                forall|l: int, i: int|
                    0 <= l <= level && 0 <= i < pow2((self.depth - l) as nat)
                        ==> #[trigger] self.stored(l, i) == node(after, l as nat, i),
                forall|l: int, i: int|
                    level < l <= self.depth && 0 <= i < pow2((self.depth - l) as nat)
                        ==> #[trigger] self.stored(l, i) == node(before, l as nat, i),
            decreases self.depth - level,
        {
            let parent: usize = at / 2;
            proof {
                lemma_ancestor_step(index as int, level as nat);
                lemma_pow2_unfold((self.depth - level) as nat);
                lemma_ancestor_bound(index as int, (level + 1) as nat, self.depth as nat);
                assert(self.stored(level as int, 2 * parent) == node(
                    after,
                    level as nat,
                    2 * parent,
                ));
                assert(self.stored(level as int, 2 * parent + 1) == node(
                    after,
                    level as nat,
                    2 * parent + 1,
                ));
            }
            let left = self.lookup(level, parent * 2);
            let right = self.lookup(level, parent * 2 + 1);
            let hash = poseidon2(left, right);
            let key: u64 = (level as u64 + 1) * 0x1_0000_0000 + parent as u64;
            let ghost start = *self;
            self.nodes.insert(key, hash);
            proof {
                assert(key == node_key(level + 1, parent as int));
                assert(hash == node(after, (level + 1) as nat, parent as int));
                self.lemma_stored_update(start, level + 1, parent as int, hash);
                self.lemma_level_bounds();
                assert forall|l: int, i: int|
                    0 <= l <= level + 1 && 0 <= i < pow2(
                        (self.depth - l) as nat,
                    ) implies #[trigger] self.stored(l, i) == node(after, l as nat, i) by {
                    if l == level + 1 && i != parent {
                        lemma_node_unaffected(before, index as int, leaf, l as nat, i);
                        assert(start.stored(l, i) == node(before, l as nat, i));
                    } else if l <= level {
                        assert(start.stored(l, i) == node(after, l as nat, i));
                    }
                }
                assert forall|l: int, i: int|
                    level + 1 < l <= self.depth && 0 <= i < pow2(
                        (self.depth - l) as nat,
                    ) implies #[trigger] self.stored(l, i) == node(before, l as nat, i) by {
                    assert(start.stored(l, i) == node(before, l as nat, i));
                }
            }
            level += 1;
            at = parent;
        }
    }

    /// Appends a leaf after those that were appended before. Fails exactly where the tree
    /// is full.
    pub fn insert(&mut self, leaf: B256) -> (r: Result<usize, MerkleError>)
        requires
            old(self).wf(),
        ensures
            final(self).wf(),
            final(self).spec_depth() == old(self).spec_depth(),
            r is Ok <==> old(self).next() < pow2(old(self).spec_depth()),
            r matches Ok(index) ==> index == old(self).next() && final(self).next() == old(
                self,
            ).next() + 1 && final(self).leaves() == old(self).leaves().insert(index as int, leaf),
            r matches Err(e) ==> e == MerkleError::TreeFull && *final(self) == *old(self),
    {
        proof {
            self.lemma_depth_bound();
        }
        if self.next_index as u64 >= self.capacity() {
            return Err(MerkleError::TreeFull);
        }
        let index = self.next_index;
        self.set_leaf(index, leaf);
        let ghost set = *self;
        self.next_index = index + 1;
        assert forall|l: int, i: int|
            0 <= l <= self.depth && 0 <= i < pow2((self.depth - l) as nat) implies #[trigger] self.stored(
            l,
            i,
        ) == node(self.leaves@, l as nat, i) by {
            assert(set.stored(l, i) == node(set.leaves@, l as nat, i));
        }
        Ok(index)
    }

    /// The siblings of the nodes above a leaf. Fails exactly where the tree has no leaf
    /// of that index.
    pub fn get_proof(&self, index: usize) -> (r: Result<MerkleProof, MerkleError>)
        requires
            self.wf(),
        ensures
            r is Ok <==> index < pow2(self.spec_depth()),
            r matches Ok(p) ==> p.siblings@ == sibling_path(
                self.leaves(),
                self.spec_depth(),
                index as int,
            ),
            r matches Err(e) ==> e == MerkleError::IndexOutOfRange,
    {
        if index as u64 >= self.capacity() {
            return Err(MerkleError::IndexOutOfRange);
        }
        let mut siblings: Vec<B256> = Vec::new();
        let mut level: usize = 0;
        let mut at: usize = index;
        proof {
            lemma2_to64();
            self.lemma_depth_bound();
        }
        while level < self.depth
            invariant
                self.wf(),
                level <= self.depth,
                self.depth <= 31,
                index < pow2(self.depth as nat),
                pow2(self.depth as nat) <= 0x8000_0000,
                at == ancestor(index as int, level as nat),
                siblings@.len() == level,
                forall|l: int|
                    0 <= l < level ==> #[trigger] siblings@[l] == node(
                        self.leaves@,
                        l as nat,
                        other_child(ancestor(index as int, l as nat)),
                    ),
            decreases self.depth - level,
        {
            proof {
                lemma_ancestor_step(index as int, level as nat);
                lemma_ancestor_bound(index as int, level as nat, self.depth as nat);
                lemma_ancestor_bound(index as int, (level + 1) as nat, self.depth as nat);
                lemma_pow2_unfold((self.depth - level) as nat);
                self.lemma_level_bounds();
            }
            let other: usize = if at % 2 == 0 {
                at + 1
            } else {
                at - 1
            };
            siblings.push(self.get_node(level, other));
            level += 1;
            at = at / 2;
        }
        assert(siblings@ =~= sibling_path(self.leaves(), self.spec_depth(), index as int));
        Ok(MerkleProof { siblings })
    }
}

impl Clone for IncrementalMerkleTree {
    fn clone(&self) -> (r: Self)
        ensures
            self.wf() ==> r.wf(),
            r.spec_depth() == self.spec_depth(),
            r.leaves() == self.leaves(),
            r.next() == self.next(),
    {
        let zero_hashes = self.zero_hashes.clone();
        assert(zero_hashes@ =~= self.zero_hashes@);
        let r = IncrementalMerkleTree {
            depth: self.depth,
            zero_hashes,
            nodes: self.nodes.clone(),
            next_index: self.next_index,
            leaves: Ghost(self.leaves@),
        };
        assert(forall|l: int, i: int| #[trigger] r.stored(l, i) == self.stored(l, i));
        r
    }
}

/// A node hashes its two children, the left before the right: at the bottom these are leaves, and
/// a leaf that was never set is zero. The hash of two words is that of the field elements that
/// they stand for, written down in 32 bytes.
pub proof fn law_node_hashes_its_children(leaves: Map<int, B256>, level: nat, index: int)
    ensures
        node(leaves, level + 1, index) == hash2(
            node(leaves, level, 2 * index),
            node(leaves, level, 2 * index + 1),
        ),
        leaves.contains_key(index) ==> node(leaves, 0, index) == leaves[index],
        !leaves.contains_key(index) ==> node(leaves, 0, index)@ == Seq::new(32, |b: int| 0u8),
        zero_hash(level + 1) == hash2(zero_hash(level), zero_hash(level)),
        zero_hash(0)@ == Seq::new(32, |b: int| 0u8),
{
    lemma_zero_word();
}

/// Climbing goes up one level at a time: a node with an even index is the left child of its
/// parent, and one with an odd index the right.
pub proof fn law_climb_keeps_sides(start: B256, index: int, path: Seq<B256>, level: nat)
    requires
        index >= 0,
    ensures
        climb(start, index, path, 0) == start,
        (index / pow2(level) as int) % 2 == 0 ==> climb(start, index, path, level + 1) == hash2(
            climb(start, index, path, level),
            path[level as int],
        ),
        (index / pow2(level) as int) % 2 == 1 ==> climb(start, index, path, level + 1) == hash2(
            path[level as int],
            climb(start, index, path, level),
        ),
{
}

/// The root of a tree depends on every leaf through the path above it: trees in which all leaves
/// but one agree have the same siblings along that leaf's path.
pub proof fn law_siblings_do_not_see_their_leaf(
    leaves: Map<int, B256>,
    depth: nat,
    index: int,
    leaf: B256,
)
    requires
        index >= 0,
    ensures
        sibling_path(leaves.insert(index, leaf), depth, index) == sibling_path(leaves, depth, index),
{
    let a = sibling_path(leaves.insert(index, leaf), depth, index);
    let b = sibling_path(leaves, depth, index);
    assert forall|l: int| 0 <= l < depth implies a[l] == b[l] by {
        lemma_node_unaffected(
            leaves,
            index,
            leaf,
            l as nat,
            other_child(ancestor(index, l as nat)),
        );
    }
    assert(a =~= b);
}

} // verus!
