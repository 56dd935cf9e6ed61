use pgp_challenger::blob::{DepositGroup, Groth16Proof, ParsedBlock, ParsedTransaction};
use pgp_challenger::merkle::{compute_zero_hashes, poseidon2, IncrementalMerkleTree, MerkleError};
use pgp_challenger::types::{Address, BlockData, TimestampAndIndex, B256, U256};
use pgp_challenger::validators::tree_update::ROOT_DEPTH;
use pgp_challenger::validators::{
    compute_anchor_from_path, BlockTreeTracker, FraudEvidence, HierarchicalRootTracker, RootTreeTracker,
    TreeUpdateValidator, BLOCKS_PER_DAY, BLOCK_IN_DAY_DEPTH, DAY_DEPTH,
};

fn valid_block_root(byte: u8) -> B256 {
    let mut w = [0u8; 32];
    w[0] = 0x01;
    w[31] = byte;
    B256(w)
}

fn word(hex: &str) -> B256 {
    let bytes = hex::decode(hex).unwrap();
    let mut w = [0u8; 32];
    w.copy_from_slice(&bytes);
    B256(w)
}

fn small(n: u8) -> B256 {
    let mut w = [0u8; 32];
    w[31] = n;
    B256(w)
}

fn three(a: u8, b: u8, c: u8) -> [B256; 3] {
    [valid_block_root(a), valid_block_root(b), valid_block_root(c)]
}

#[test]
fn test_tree_update_validator_new() {
    let validator = TreeUpdateValidator::new();
    let _ = validator;
}

#[test]
fn test_incremental_tree_updates() {
    let mut tree = IncrementalMerkleTree::new(12);
    let leaf = |first: u8, last: u8| {
        let mut w = [0u8; 32];
        w[0] = first;
        w[31] = last;
        B256(w)
    };
    let leaf1 = leaf(0x01, 0x11);
    let leaf2 = leaf(0x02, 0x22);
    let leaf3 = leaf(0x03, 0x33);

    tree.insert(leaf1).unwrap();
    let root1 = tree.root();
    tree.insert(leaf2).unwrap();
    let root2 = tree.root();
    tree.insert(leaf3).unwrap();
    let root3 = tree.root();
    assert_ne!(root1, root2);
    assert_ne!(root2, root3);

    let mut tree2 = IncrementalMerkleTree::new(12);
    tree2.insert(leaf1).unwrap();
    tree2.insert(leaf2).unwrap();
    tree2.insert(leaf3).unwrap();
    assert_eq!(tree.root(), tree2.root());
}

#[test]
fn test_zero_hashes() {
    let zero_hashes = compute_zero_hashes(12);
    assert_eq!(zero_hashes.len(), 13);
    assert_eq!(zero_hashes[0], B256::zero());
    for i in 1..zero_hashes.len() {
        let expected = poseidon2(zero_hashes[i - 1], zero_hashes[i - 1]);
        assert_eq!(zero_hashes[i], expected);
    }
}

#[test]
fn test_poseidon2_consistency() {
    let a = B256::repeat_byte(0x11);
    let b = B256::repeat_byte(0x22);
    let hash1 = poseidon2(a, b);
    let hash2 = poseidon2(a, b);
    assert_eq!(hash1, hash2);
    assert_ne!(hash1, B256::zero());
}

#[test]
fn test_hierarchical_root_tracker_new() {
    let tracker = HierarchicalRootTracker::new();
    assert_eq!(tracker.block_count(), 0);
    assert_eq!(tracker.day_count(), 0);
    assert!(tracker.last_day().is_none());
    assert_ne!(tracker.current_anchor(), B256::zero());
}

#[test]
fn test_hierarchical_root_tracker_insert() {
    let mut tracker = HierarchicalRootTracker::new();
    let initial_anchor = tracker.current_anchor();

    let block_root = valid_block_root(0x11);
    let (new_anchor, day_changed, _) = tracker.insert_block_root(0, 0, block_root, 30);
    assert_ne!(new_anchor, initial_anchor);
    assert!(day_changed);
    assert_eq!(tracker.block_count(), 1);
    assert_eq!(tracker.day_count(), 1);
    assert_eq!(tracker.last_day(), Some(0));

    let block_root2 = valid_block_root(0x22);
    let (_, day_changed2, _) = tracker.insert_block_root(0, 1, block_root2, 45);
    assert!(!day_changed2);
    assert_eq!(tracker.block_count(), 2);

    let block_root3 = valid_block_root(0x33);
    let (_, day_changed3, _prev_day_root) = tracker.insert_block_root(1, 0, block_root3, 15);
    assert!(day_changed3);
    assert_eq!(tracker.day_count(), 2);
    assert!(tracker.get_day_root(0).is_some());
    assert!(tracker.get_day_root(1).is_some());
}

#[test]
fn test_hierarchical_root_tracker_paths() {
    let mut tracker = HierarchicalRootTracker::new();
    tracker.insert_block_root(0, 0, valid_block_root(0x11), 30);
    tracker.insert_block_root(0, 1, valid_block_root(0x22), 30);
    tracker.insert_block_root(1, 0, valid_block_root(0x33), 30);

    let day_path = tracker.get_day_path(0);
    assert_eq!(day_path.len(), DAY_DEPTH);
    let bid_path = tracker.get_block_in_day_path(0, 0);
    assert_eq!(bid_path.len(), BLOCK_IN_DAY_DEPTH);
    let root_path = tracker.get_root_path_for_position(0, 1);
    assert_eq!(root_path.len(), ROOT_DEPTH);
}

#[test]
fn test_hierarchical_root_tracker_compute_tree_index() {
    assert_eq!(HierarchicalRootTracker::compute_tree_index(0, 0), 0);
    assert_eq!(HierarchicalRootTracker::compute_tree_index(0, 100), 100);
    assert_eq!(HierarchicalRootTracker::compute_tree_index(1, 0), 8192);
    assert_eq!(HierarchicalRootTracker::compute_tree_index(1, 100), 8292);
}

#[test]
fn test_hierarchical_root_tracker_from_database() {
    let day_roots = vec![
        (0u16, valid_block_root(0xAA), 100u32, 99u64),
        (1u16, valid_block_root(0xBB), 50u32, 149u64),
    ];
    let block_roots = vec![
        (0u16, 0u16, 0u64, valid_block_root(0x11), 30u32),
        (0u16, 1u16, 1u64, valid_block_root(0x22), 30u32),
        (1u16, 0u16, 100u64, valid_block_root(0x33), 30u32),
    ];
    let tracker = HierarchicalRootTracker::from_database(&day_roots, &block_roots);
    assert_eq!(tracker.block_count(), 3);
    assert_eq!(tracker.day_count(), 2);
    assert_eq!(tracker.last_day(), Some(1));
    assert!(tracker.get_day_root(0).is_some());
    assert!(tracker.get_day_root(1).is_some());
    let day0_blocks = tracker.get_block_roots_for_day(0);
    assert_eq!(day0_blocks.len(), 2);
}

#[test]
fn test_hierarchical_root_tracker_block_queries() {
    let mut tracker = HierarchicalRootTracker::new();
    tracker.insert_block_root(0, 0, valid_block_root(0x11), 30);
    tracker.insert_block_root(0, 1, valid_block_root(0x22), 45);
    tracker.insert_block_root(0, 2, valid_block_root(0x33), 60);
    tracker.insert_block_root(1, 0, valid_block_root(0x44), 15);

    assert_eq!(tracker.get_block_count_for_day(0), 3);
    assert_eq!(tracker.get_block_count_for_day(1), 1);
    assert_eq!(tracker.get_block_count_for_day(2), 0);

    let day0_blocks = tracker.get_block_roots_for_day(0);
    assert_eq!(day0_blocks.len(), 3);
    assert_eq!(day0_blocks[0].0, 0);
    assert_eq!(day0_blocks[1].0, 1);
    assert_eq!(day0_blocks[2].0, 2);

    let all_days = tracker.get_all_day_roots();
    assert_eq!(all_days.len(), 2);
    let day_range = tracker.get_day_roots_range(0, 0);
    assert_eq!(day_range.len(), 1);
}

#[test]
fn test_root_tree_tracker_new() {
    let tracker = RootTreeTracker::new();
    assert_eq!(tracker.block_count(), 0);
    assert_ne!(tracker.current_anchor(), B256::zero());
}

#[test]
fn test_root_tree_tracker_insert_and_remove() {
    let mut tracker = RootTreeTracker::new();
    let initial_anchor = tracker.current_anchor();
    let tree_index = 0;
    let block_root = valid_block_root(0x11);
    let new_anchor = tracker.insert_block_root(tree_index, block_root);
    assert_ne!(new_anchor, initial_anchor);
    assert_eq!(tracker.block_count(), 1);
    assert_eq!(tracker.current_anchor(), new_anchor);

    tracker.remove_block_root(tree_index);
    assert_eq!(tracker.block_count(), 0);
    assert_eq!(tracker.current_anchor(), initial_anchor);
}

#[test]
fn test_root_tree_tracker_compute_tree_index() {
    assert_eq!(RootTreeTracker::compute_tree_index(0, 0), 0);
    assert_eq!(RootTreeTracker::compute_tree_index(0, 100), 100);
    assert_eq!(RootTreeTracker::compute_tree_index(1, 0), BLOCKS_PER_DAY);
    assert_eq!(RootTreeTracker::compute_tree_index(2, 500), 2 * BLOCKS_PER_DAY + 500);
}

#[test]
fn test_root_tree_tracker_from_block_roots() {
    let block_roots = vec![
        (0, valid_block_root(0x11)),
        (100, valid_block_root(0x22)),
        (8192, valid_block_root(0x33)),
    ];
    let tracker = RootTreeTracker::from_block_roots(&block_roots);
    assert_eq!(tracker.block_count(), 3);
    let anchor = tracker.current_anchor();
    assert_ne!(anchor, B256::zero());
}

#[test]
fn test_root_tree_tracker_root_path() {
    let mut tracker = RootTreeTracker::new();
    tracker.insert_block_root(0, valid_block_root(0x11));
    tracker.insert_block_root(1, valid_block_root(0x22));
    let path = tracker.get_root_path_for_index(0);
    assert_eq!(path.len(), ROOT_DEPTH);
}

#[test]
fn test_root_tree_tracker_compute_anchor_for_block() {
    let mut tracker = RootTreeTracker::new();
    let block_root = valid_block_root(0x11);
    let tree_index = 42;
    let computed_anchor = tracker.compute_anchor_for_block(tree_index, block_root);
    assert_eq!(tracker.block_count(), 0);
    let actual_anchor = tracker.insert_block_root(tree_index, block_root);
    assert_eq!(computed_anchor, actual_anchor);
}

#[test]
fn test_block_tree_tracker_new() {
    let root_path = [B256::zero(); ROOT_DEPTH];
    let tracker = BlockTreeTracker::from_root_path_array(0, root_path);
    assert_eq!(tracker.block_index(), 0);
    assert_eq!(tracker.in_block_index(), 0);
    assert_ne!(tracker.block_root(), B256::zero());
}

#[test]
fn test_block_tree_tracker_apply_update() {
    let root_path = [B256::zero(); ROOT_DEPTH];
    let mut tracker = BlockTreeTracker::from_root_path_array(0, root_path);
    let initial_anchor = tracker.current_anchor();

    let new_anchor = tracker.apply_update(three(0x11, 0x22, 0x33));
    assert_ne!(new_anchor, initial_anchor);
    assert_eq!(tracker.in_block_index(), 3);

    let newer_anchor = tracker.apply_update(three(0x44, 0x55, 0x66));
    assert_ne!(newer_anchor, new_anchor);
    assert_eq!(tracker.in_block_index(), 6);
}

#[test]
fn test_block_tree_tracker_apply_update_at() {
    let root_path = [B256::zero(); ROOT_DEPTH];
    let mut tracker = BlockTreeTracker::from_root_path_array(0, root_path);
    let _anchor = tracker.apply_update_at(three(0x11, 0x22, 0x33), 0);
    assert_eq!(tracker.in_block_index(), 0);
}

#[test]
fn test_block_tree_tracker_merkle_data() {
    let root_path = [B256::zero(); ROOT_DEPTH];
    let tracker = BlockTreeTracker::from_root_path_array(0, root_path);
    let merkle_data = tracker.get_merkle_data_before_update(0, three(0x11, 0x22, 0x33));
    assert_eq!(merkle_data.block_index, 0);
    assert_eq!(merkle_data.in_block_index, 0);
    assert_eq!(merkle_data.block_proofs.len(), 4);
    assert_eq!(merkle_data.root_path.len(), ROOT_DEPTH);
}

#[test]
fn test_block_tree_tracker_nonzero_field() {
    let root_path = [B256::zero(); ROOT_DEPTH];
    let mut tracker = BlockTreeTracker::from_root_path_array(0, root_path);
    assert_eq!(tracker.get_nonzero_field(0), B256::zero());
    assert_eq!(tracker.get_nonzero_field(3), B256::zero());

    tracker.apply_update(three(0x11, 0x22, 0x33));
    assert_eq!(tracker.get_nonzero_field(0), B256::zero());
    assert_eq!(tracker.get_nonzero_field(3), valid_block_root(0x33));
    assert_eq!(tracker.get_nonzero_field(2), valid_block_root(0x22));
}

#[test]
fn test_block_tree_tracker_clone() {
    let root_path = [B256::zero(); ROOT_DEPTH];
    let mut tracker = BlockTreeTracker::from_root_path_array(0, root_path);
    tracker.apply_update(three(0x11, 0x22, 0x33));
    let snapshot = tracker.clone();
    tracker.apply_update(three(0x44, 0x55, 0x66));
    assert_eq!(snapshot.in_block_index(), 3);
    assert_eq!(tracker.in_block_index(), 6);
    assert_ne!(snapshot.current_anchor(), tracker.current_anchor());
}

#[test]
fn test_hierarchical_remove_blocks_from() {
    let mut tracker = HierarchicalRootTracker::new();
    tracker.insert_block_root(0, 0, valid_block_root(0x11), 30);
    tracker.insert_block_root(0, 1, valid_block_root(0x22), 30);
    tracker.insert_block_root(0, 2, valid_block_root(0x33), 30);
    tracker.insert_block_root(1, 0, valid_block_root(0x44), 30);
    assert_eq!(tracker.block_count(), 4);

    tracker.remove_blocks_from(2, |day, bid| Some(day as u64 * 1000 + bid as u64));
    assert_eq!(tracker.block_count(), 2);
    assert_eq!(tracker.get_block_count_for_day(0), 2);
    assert_eq!(tracker.get_block_count_for_day(1), 0);
}

#[test]
fn test_compute_anchor_from_path() {
    let block_root = valid_block_root(0x11);
    let tree_index = 0;
    let root_path = [B256::zero(); ROOT_DEPTH];
    let anchor = compute_anchor_from_path(block_root, tree_index, &root_path);
    assert_ne!(anchor, B256::zero());
    assert_ne!(anchor, block_root);
    let anchor2 = compute_anchor_from_path(block_root, tree_index, &root_path);
    assert_eq!(anchor, anchor2);
    let anchor3 = compute_anchor_from_path(block_root, 1, &root_path);
    assert_ne!(anchor, anchor3);
}

#[test]
fn poseidon_of_known_pairs() {
    assert_eq!(
        poseidon2(small(1), small(2)),
        word("115cc0f5e7d690413df64c6b9662e9cf2a3617f2743245519e19607a4417189a")
    );
    assert_eq!(
        poseidon2(B256::zero(), B256::zero()),
        word("2098f5fb9e239eab3ceac3f27b81e481dc3124d55ffed523a839ee8446b64864")
    );
    assert_ne!(poseidon2(small(1), small(2)), poseidon2(small(2), small(1)));
    // Every hash lies below the order of the field.
    let order = word("30644e72e131a029b85045b68181585d2833e84879b9709143e1f593f0000001");
    let mut hash = B256::repeat_byte(0xFF);
    for _ in 0..50 {
        hash = poseidon2(hash, hash);
        assert!(hash.0 < order.0);
    }
}

#[test]
fn words_are_hashed_as_field_elements() {
    // The order of the field stands for zero.
    let order = word("30644e72e131a029b85045b68181585d2833e84879b9709143e1f593f0000001");
    assert_eq!(poseidon2(order, small(2)), poseidon2(B256::zero(), small(2)));
}

#[test]
fn a_small_tree_is_hashed_level_by_level() {
    let mut tree = IncrementalMerkleTree::new(2);
    assert_eq!(tree.insert(small(1)).unwrap(), 0);
    assert_eq!(tree.insert(small(2)).unwrap(), 1);
    tree.set_leaf(3, small(4));
    let left = poseidon2(small(1), small(2));
    let right = poseidon2(B256::zero(), small(4));
    assert_eq!(tree.root(), poseidon2(left, right));
    assert_eq!(tree.get_node(1, 0), left);
    assert_eq!(tree.get_node(0, 2), B256::zero());
    let proof = tree.get_proof(2).unwrap();
    assert_eq!(proof.siblings, vec![small(4), left]);
    assert_eq!(tree.get_proof(4).err(), Some(MerkleError::IndexOutOfRange));
}

#[test]
fn a_full_tree_takes_no_leaf() {
    let mut tree = IncrementalMerkleTree::new(1);
    assert!(tree.insert(small(1)).is_ok());
    assert!(tree.insert(small(2)).is_ok());
    assert_eq!(tree.insert(small(3)).err(), Some(MerkleError::TreeFull));
    assert_eq!(tree.root(), poseidon2(small(1), small(2)));
}

#[test]
fn the_path_of_a_block_leads_to_its_anchor() {
    let mut tracker = RootTreeTracker::default();
    tracker.insert_block_root(5, valid_block_root(1));
    tracker.insert_block_root(8200, valid_block_root(2));
    let path = tracker.get_root_path_for_index(5);
    assert_eq!(compute_anchor_from_path(valid_block_root(1), 5, &path), tracker.current_anchor());
    assert_eq!(
        compute_anchor_from_path(valid_block_root(3), 5, &path),
        tracker.insert_block_root(5, valid_block_root(3))
    );
}

#[test]
fn insertions_commute_and_restoring_gives_the_same_anchor() {
    let mut a = RootTreeTracker::new();
    a.insert_block_root(0, valid_block_root(1));
    a.insert_block_root(8193, valid_block_root(2));
    let mut b = RootTreeTracker::new();
    b.insert_block_root(8193, valid_block_root(2));
    b.insert_block_root(0, valid_block_root(1));
    assert_eq!(a.current_anchor(), b.current_anchor());
    let c = RootTreeTracker::from_hierarchical_block_roots(&[
        (0, 0, 0, valid_block_root(1), 3),
        (1, 1, 1, valid_block_root(2), 3),
    ]);
    assert_eq!(a.current_anchor(), c.current_anchor());
    let mut roots = a.block_roots();
    roots.sort_by_key(|r| r.0);
    assert_eq!(roots, vec![(0, valid_block_root(1)), (8193, valid_block_root(2))]);
}

#[test]
fn the_hierarchy_foretells_its_anchor() {
    let mut tracker = HierarchicalRootTracker::default();
    tracker.insert_block_root(2, 7, valid_block_root(1), 3);
    let told = tracker.compute_anchor_for_block(2, 9, valid_block_root(2));
    let told_new_day = tracker.compute_anchor_for_block(3, 0, valid_block_root(2));
    let mut other = HierarchicalRootTracker::new();
    other.insert_block_root(2, 7, valid_block_root(1), 3);
    assert_eq!(other.insert_block_root(3, 0, valid_block_root(2), 3).0, told_new_day);
    assert_eq!(tracker.insert_block_root(2, 9, valid_block_root(2), 3).0, told);
}

#[test]
fn a_day_without_blocks_has_a_root_only_if_given() {
    let given = HierarchicalRootTracker::from_database(&[(4, valid_block_root(9), 1, 1)], &[]);
    assert_eq!(given.get_day_root(4), Some(valid_block_root(9)));
    assert_eq!(given.last_day(), None);
    assert_eq!(given.get_day_root(5), None);
    let computed =
        HierarchicalRootTracker::from_database(&[], &[(4, 0, 1, valid_block_root(9), 3)]);
    let mut inserted = HierarchicalRootTracker::new();
    inserted.insert_block_root(4, 0, valid_block_root(9), 3);
    assert_eq!(computed.get_day_root(4), inserted.get_day_root(4));
    assert_eq!(computed.current_anchor(), inserted.current_anchor());
}

#[test]
fn the_root_of_a_changed_day_is_returned() {
    let mut tracker = HierarchicalRootTracker::new();
    tracker.insert_block_root(0, 0, valid_block_root(1), 3);
    let day0 = tracker.get_day_root(0);
    let (_, changed, previous) = tracker.insert_block_root(1, 0, valid_block_root(2), 3);
    assert!(changed);
    assert_eq!(previous, None);
    let (_, changed, previous) = tracker.insert_block_root(0, 1, valid_block_root(3), 3);
    assert!(changed);
    assert_eq!(previous, day0);
    let (_, changed, previous) = tracker.insert_block_root(0, 2, valid_block_root(4), 3);
    assert!(!changed);
    assert_eq!(previous, None);
}

#[test]
fn blocks_without_a_number_stay() {
    let mut tracker = HierarchicalRootTracker::new();
    tracker.insert_block_root(0, 0, valid_block_root(1), 3);
    tracker.insert_block_root(3, 0, valid_block_root(2), 3);
    tracker.remove_blocks_from(0, |day, _| if day == 0 { None } else { Some(9) });
    assert_eq!(tracker.block_count(), 1);
    assert_eq!(tracker.last_day(), Some(0));
    // A day that lost all its blocks keeps the root of an empty tree.
    assert_eq!(tracker.get_day_root(3), Some(compute_zero_hashes(BLOCK_IN_DAY_DEPTH)[BLOCK_IN_DAY_DEPTH]));
}

#[test]
fn merkle_data_describes_the_update() {
    let mut tracker = BlockTreeTracker::new(6, &[]);
    tracker.apply_update(three(1, 2, 3));
    let root_before = tracker.block_root();
    let data = tracker.get_merkle_data_before_update(3, three(4, 5, 6));
    assert_eq!(data.block_root_before, root_before);
    assert_eq!(data.block_index, 6);
    assert_eq!(data.nonzero_field, valid_block_root(3));
    let zeros = compute_zero_hashes(28);
    assert_eq!(data.root_path[0], B256::zero());
    assert_eq!(data.root_path[27], zeros[27]);
    // The sibling of leaf 3 is leaf 2; of leaf 4, leaf 5, still empty; of leaf 5, leaf 4.
    assert_eq!(data.block_proofs[0][0], B256::zero());
    assert_eq!(data.block_proofs[1][0], valid_block_root(3));
    assert_eq!(data.block_proofs[2][0], B256::zero());
    assert_eq!(data.block_proofs[3][0], valid_block_root(5));
}

fn header(anchor: B256) -> BlockData {
    BlockData {
        anchor,
        timestamp: U256::zero(),
        num_transactions: U256::from_u64(1),
        num_deposits: U256::from_u64(3),
        block_nr: U256::from_u64(1),
        block_index: TimestampAndIndex { day: 0, index: 1 },
        sequencer: Address::zero(),
        blobhashes: vec![],
    }
}

fn block(first_root: B256, second_root: B256) -> ParsedBlock {
    let z = B256::zero();
    let d = three(1, 2, 3);
    let t = three(4, 5, 6);
    ParsedBlock {
        deposit_groups: vec![DepositGroup { leaf0: d[0], leaf1: d[1], leaf2: d[2], new_root: first_root }],
        transactions: vec![ParsedTransaction {
            proof: Groth16Proof { a_x: z, a_y: z, b_x0: z, b_x1: z, b_y0: z, b_y1: z, c_x: z, c_y: z },
            anchor_info: z,
            nullifier0: z,
            nullifier1: z,
            leaf0: t[0],
            leaf1: t[1],
            leaf2: t[2],
            new_root: second_root,
        }],
    }
}

#[test]
fn correct_updates_draw_no_evidence() {
    let chain = RootTreeTracker::new();
    let path = chain.get_root_path_for_index(1);
    let mut tracker = BlockTreeTracker::new(1, &path);
    let first = tracker.apply_update(three(1, 2, 3));
    let second = tracker.apply_update(three(4, 5, 6));
    let validator = TreeUpdateValidator::default();
    let genesis = chain.current_anchor();
    let (fraud, root) =
        validator.validate_block(&header(second), &block(first, second), genesis, None, 1, 0, &path);
    assert!(fraud.is_empty());
    assert_eq!(root, tracker.block_root());
    assert_eq!(chain.compute_anchor_for_block(1, root), second);
    assert_eq!(
        TreeUpdateValidator::compute_expected_root(genesis, three(1, 2, 3), 1, 0, &path),
        first
    );
}

#[test]
fn a_wrong_root_is_reported_with_both_roots() {
    let chain = RootTreeTracker::new();
    let path = chain.get_root_path_for_index(1);
    let mut tracker = BlockTreeTracker::new(1, &path);
    let first = tracker.apply_update(three(1, 2, 3));
    let second = tracker.apply_update(three(4, 5, 6));
    let wrong = valid_block_root(0x77);
    let genesis = chain.current_anchor();
    let validator = TreeUpdateValidator::new();
    let (fraud, _) =
        validator.validate_block(&header(second), &block(wrong, second), genesis, Some(0), 1, 0, &path);
    assert_eq!(fraud.len(), 1);
    match &fraud[0] {
        FraudEvidence::IncorrectTreeUpdate {
            update_nr,
            is_tx,
            expected_anchor,
            submitted_anchor,
            prior_anchor,
            leaves,
            ..
        } => {
            assert_eq!(*update_nr, 0);
            assert!(!*is_tx);
            assert_eq!(*expected_anchor, first);
            assert_eq!(*submitted_anchor, wrong);
            assert_eq!(*prior_anchor, genesis);
            assert_eq!(*leaves, three(1, 2, 3));
        }
        _ => panic!("Expected IncorrectTreeUpdate fraud"),
    }
}

#[test]
fn a_wrong_anchor_in_the_header_is_reported() {
    let chain = RootTreeTracker::new();
    let path = chain.get_root_path_for_index(1);
    let mut tracker = BlockTreeTracker::new(1, &path);
    let first = tracker.apply_update(three(1, 2, 3));
    let second = tracker.apply_update(three(4, 5, 6));
    let wrong = valid_block_root(0x77);
    let (fraud, _) = TreeUpdateValidator::new().validate_block(
        &header(wrong),
        &block(first, second),
        chain.current_anchor(),
        None,
        1,
        0,
        &path,
    );
    assert_eq!(fraud.len(), 1);
    let mut before_last = BlockTreeTracker::new(1, &path);
    before_last.apply_update(three(1, 2, 3));
    match &fraud[0] {
        FraudEvidence::IncorrectTreeUpdate {
            update_nr,
            is_tx,
            expected_anchor,
            submitted_anchor,
            prior_anchor,
            leaves,
            prior_anchor_block_nr,
            prior_update_nr,
            merkle_data,
            ..
        } => {
            assert_eq!(*update_nr, 1);
            assert!(*is_tx);
            assert_eq!(*expected_anchor, second);
            assert_eq!(*submitted_anchor, wrong);
            assert_eq!(*prior_anchor, first);
            assert_eq!(*leaves, three(4, 5, 6));
            assert_eq!(*prior_anchor_block_nr, None);
            assert_eq!(*prior_update_nr, Some(0));
            let data = merkle_data.unwrap();
            assert_eq!(data.block_root_before, before_last.block_root());
            assert_eq!(data.in_block_index, 3);
            assert_eq!(data.nonzero_field, valid_block_root(3));
        }
        _ => panic!("Expected IncorrectTreeUpdate fraud"),
    }
}

#[test]
fn a_wrong_header_over_one_update_goes_on_from_the_block_before() {
    let chain = RootTreeTracker::new();
    let path = chain.get_root_path_for_index(1);
    let first = BlockTreeTracker::new(1, &path).apply_update(three(1, 2, 3));
    let mut one = block(first, first);
    one.transactions.clear();
    let genesis = chain.current_anchor();
    let (fraud, _) = TreeUpdateValidator::new().validate_block(
        &header(valid_block_root(0x77)),
        &one,
        genesis,
        Some(0),
        1,
        0,
        &path,
    );
    assert_eq!(fraud.len(), 1);
    match &fraud[0] {
        FraudEvidence::IncorrectTreeUpdate {
            update_nr, prior_anchor, prior_anchor_block_nr, prior_update_nr, ..
        } => {
            assert_eq!(*update_nr, 0);
            assert_eq!(*prior_anchor, genesis);
            assert_eq!(*prior_anchor_block_nr, Some(0));
            assert_eq!(*prior_update_nr, None);
        }
        _ => panic!("Expected IncorrectTreeUpdate fraud"),
    }
}

#[test]
fn the_block_root_follows_from_the_leaves_alone() {
    let validator = TreeUpdateValidator::new();
    let wrong = valid_block_root(0x77);
    let other_path = [valid_block_root(5); 28];
    let (_, a) = validator.validate_block(&header(wrong), &block(wrong, wrong), wrong, None, 1, 0, &[]);
    let (_, b) = validator.validate_block(
        &header(small(1)),
        &block(small(2), small(3)),
        small(4),
        Some(9),
        7,
        0,
        &other_path,
    );
    assert_eq!(a, b);
    let (_, c) = validator.validate_block(&header(wrong), &block(wrong, wrong), wrong, None, 1, 3, &[]);
    assert_ne!(a, c);
}

#[test]
fn removal_leaves_the_anchor_of_the_kept_blocks() {
    let mut tracker = HierarchicalRootTracker::new();
    let mut alone = HierarchicalRootTracker::new();
    for (day, block_in_day, nr) in [(0u16, 0u16, 0u8), (0, 1, 1), (1, 0, 2), (1, 5, 3), (2, 0, 4)] {
        tracker.insert_block_root(day, block_in_day, valid_block_root(nr), 3);
        if block_in_day == 0 {
            alone.insert_block_root(day, block_in_day, valid_block_root(nr), 3);
        }
    }
    assert_ne!(tracker.current_anchor(), alone.current_anchor());
    tracker.remove_blocks_from(1, |_, block_in_day| Some(block_in_day as u64));
    assert_eq!(tracker.current_anchor(), alone.current_anchor());
    assert_eq!(tracker.block_count(), 3);
    assert_eq!(tracker.last_day(), Some(2));
}
