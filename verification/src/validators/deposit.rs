//! The check that a block holds the leaves that were deposited, and nothing in the
//! slots that no deposit uses.

use crate::blob::{group_leaf, BlockContents, ParsedBlock};
use crate::types::{lemma_b256_ext, lemma_zero_word, zero_word, BlockData, BlockView, B256};
use crate::validators::{evidence_views, lemma_evidence_push, EvidenceView, FraudEvidence};
use vstd::prelude::*;

verus! {

/// Whether a block holds another leaf than was deposited. A deposit that it holds no
/// leaf for does not count.
pub open spec fn wrong_leaf(block: BlockContents, expected: Seq<B256>, i: int) -> bool {
    block.deposit_leaf(i) matches Some(leaf) && leaf != expected[i]
}

/// The evidence against the first `count` deposits.
pub open spec fn leaf_frauds(
    header: BlockView,
    block: BlockContents,
    expected: Seq<B256>,
    count: nat,
) -> Seq<EvidenceView>
    decreases count,
{
    if count == 0 {
        Seq::empty()
    } else {
        let i = count - 1;
        let before = leaf_frauds(header, block, expected, i as nat);
        if wrong_leaf(block, expected, i) {
            before.push(
                EvidenceView::DepositWrongLeaf {
                    block: header,
                    deposit_nr: i as u64,
                    expected_leaf: expected[i],
                    submitted_leaf: block.deposit_leaf(i)->0,
                },
            )
        } else {
            before
        }
    }
}

/// Whether a slot of a group that no deposit uses is not zero.
pub open spec fn padded_wrongly(block: BlockContents, num_deposits: nat, slot: int) -> bool {
    let group = (num_deposits / 3) as int;
    &&& 0 < num_deposits % 3 <= slot
    &&& group < block.deposit_groups.len()
    &&& group_leaf(block.deposit_groups[group], slot) != zero_word()
}

/// The evidence that a slot that no deposit uses is not zero.
pub open spec fn slot_frauds(
    header: BlockView,
    block: BlockContents,
    num_deposits: nat,
    slot: int,
) -> Seq<EvidenceView> {
    if padded_wrongly(block, num_deposits, slot) {
        seq![
            EvidenceView::DepositPaddingNotZero {
                block: header,
                group_index: (num_deposits / 3) as u64,
                slot_index: slot as u64,
                submitted_value: group_leaf(
                    block.deposit_groups[(num_deposits / 3) as int],
                    slot,
                ),
            },
        ]
    } else {
        Seq::empty()
    }
}

/// How many deposits are compared: those of the header, as far as leaves are expected.
pub open spec fn checked_deposits(header: BlockView, expected: Seq<B256>) -> nat {
    if header.num_deposits@ <= expected.len() {
        header.num_deposits@
    } else {
        expected.len()
    }
}

/// All evidence against the deposits of a block. A block that claims more deposits than
/// can be counted is not checked.
pub open spec fn deposit_frauds(
    header: BlockView,
    block: BlockContents,
    expected: Seq<B256>,
) -> Seq<EvidenceView> {
    let n = header.num_deposits@;
    if n > usize::MAX {
        Seq::empty()
    } else {
        leaf_frauds(header, block, expected, checked_deposits(header, expected)) + slot_frauds(
            header,
            block,
            n,
            1,
        ) + slot_frauds(header, block, n, 2)
    }
}

/// Checks the deposits of blocks against those recorded on chain.
#[derive(Clone, Copy, Debug)]
pub struct DepositValidator {}

impl DepositValidator {
    /// A validator of deposits.
    pub fn new() -> DepositValidator {
        DepositValidator {  }
    }

    /// Checks the deposits of a block against the leaves recorded on chain.
    pub fn validate_block(
        &self,
        block_data: &BlockData,
        block: &ParsedBlock,
        expected_deposits: &[B256],
    ) -> (fraud: Vec<FraudEvidence>)
        ensures
            evidence_views(fraud@) == deposit_frauds(block_data@, block@, expected_deposits@),
    {
        let mut fraud: Vec<FraudEvidence> = Vec::new();
        let num_deposits: usize = match block_data.num_deposits.to_u64() {
            Some(n) if n <= usize::MAX as u64 => n as usize,
            _ => {
                assert(evidence_views(fraud@) =~= Seq::<EvidenceView>::empty());
                return fraud;
            },
        };
        let check_count: usize = if num_deposits <= expected_deposits.len() {
            num_deposits
        } else {
            expected_deposits.len()
        };
        let mut i: usize = 0;
        assert(evidence_views(fraud@) =~= Seq::<EvidenceView>::empty());
        while i < check_count
            invariant
                i <= check_count <= expected_deposits@.len(),
                evidence_views(fraud@) == leaf_frauds(
                    block_data@,
                    block@,
                    expected_deposits@,
                    i as nat,
                ),
            decreases check_count - i,
        {
            let expected_leaf = expected_deposits[i];
            match block.get_deposit_leaf(i) {
                Ok(submitted_leaf) => {
                    if submitted_leaf != expected_leaf {
                        let ghost before = fraud@;
                        let evidence = FraudEvidence::DepositWrongLeaf {
                            block_data: block_data.clone(),
                            deposit_nr: i as u64,
                            expected_leaf,
                            submitted_leaf,
                        };
                        proof {
                            lemma_evidence_push(before, evidence);
                        }
                        fraud.push(evidence);
                    }
                },
                Err(_) => {},
            }
            i += 1;
        }
        let ghost leaves = evidence_views(fraud@);
        let remainder: usize = num_deposits % 3;
        let last_group_index: usize = num_deposits / 3;
        if remainder != 0 && last_group_index < block.deposit_groups.len() {
            let last_group = block.deposit_groups[last_group_index];
            let zero = B256::zero();
            let ghost n = num_deposits as nat;
            if remainder == 1 && last_group.leaf1 != zero {
                let ghost before = fraud@;
                let evidence = FraudEvidence::DepositPaddingNotZero {
                    block_data: block_data.clone(),
                    group_index: last_group_index as u64,
                    slot_index: 1,
                    submitted_value: last_group.leaf1,
                };
                proof {
                    lemma_evidence_push(before, evidence);
                }
                fraud.push(evidence);
                assert(evidence_views(fraud@) =~= leaves + slot_frauds(block_data@, block@, n, 1));
            }
            assert(evidence_views(fraud@) =~= leaves + slot_frauds(block_data@, block@, n, 1));
            let ghost first = evidence_views(fraud@);
            if last_group.leaf2 != zero {
                let ghost before = fraud@;
                let evidence = FraudEvidence::DepositPaddingNotZero {
                    block_data: block_data.clone(),
                    group_index: last_group_index as u64,
                    slot_index: 2,
                    submitted_value: last_group.leaf2,
                };
                proof {
                    lemma_evidence_push(before, evidence);
                }
                fraud.push(evidence);
                assert(evidence_views(fraud@) =~= first + slot_frauds(block_data@, block@, n, 2));
            }
            assert(evidence_views(fraud@) =~= first + slot_frauds(block_data@, block@, n, 2));
        }
        assert(evidence_views(fraud@) =~= deposit_frauds(
            block_data@,
            block@,
            expected_deposits@,
        ));
        fraud
    }
}

impl Default for DepositValidator {
    fn default() -> Self {
        Self::new()
    }
}

/// A block draws no evidence exactly where every deposit that is compared has its leaf,
/// as far as the block holds one, and every slot that no deposit uses is zero.
pub proof fn law_no_evidence_iff_deposits_kept(
    header: BlockView,
    block: BlockContents,
    expected: Seq<B256>,
)
    requires
        header.num_deposits@ <= usize::MAX,
    ensures
        deposit_frauds(header, block, expected).len() == 0 <==> {
            &&& forall|i: int|
                0 <= i < checked_deposits(header, expected) ==> !#[trigger] wrong_leaf(
                    block,
                    expected,
                    i,
                )
            &&& !padded_wrongly(block, header.num_deposits@, 1)
            &&& !padded_wrongly(block, header.num_deposits@, 2)
        },
{
    lemma_no_leaf_fraud(header, block, expected, checked_deposits(header, expected));
}

/// The same for the first `count` deposits.
proof fn lemma_no_leaf_fraud(
    header: BlockView,
    block: BlockContents,
    expected: Seq<B256>,
    count: nat,
)
    ensures
        leaf_frauds(header, block, expected, count).len() == 0 <==> forall|i: int|
            0 <= i < count ==> !#[trigger] wrong_leaf(block, expected, i),
    decreases count,
{
    if count > 0 {
        lemma_no_leaf_fraud(header, block, expected, (count - 1) as nat);
    }
}

/// Where the evidence against a wrong leaf stands.
proof fn lemma_leaf_fraud_at(
    header: BlockView,
    block: BlockContents,
    expected: Seq<B256>,
    count: nat,
    i: int,
) -> (j: int)
    requires
        0 <= i < count,
        wrong_leaf(block, expected, i),
    ensures
        0 <= j < leaf_frauds(header, block, expected, count).len(),
        leaf_frauds(header, block, expected, count)[j] == (EvidenceView::DepositWrongLeaf {
            block: header,
            deposit_nr: i as u64,
            expected_leaf: expected[i],
            submitted_leaf: block.deposit_leaf(i)->0,
        }),
    decreases count,
{
    let before = leaf_frauds(header, block, expected, (count - 1) as nat);
    if i < count - 1 {
        lemma_leaf_fraud_at(header, block, expected, (count - 1) as nat, i)
    } else {
        before.len() as int
    }
}

/// What the evidence at a place is about. What stands later is about a later deposit.
proof fn lemma_leaf_fraud_of(
    header: BlockView,
    block: BlockContents,
    expected: Seq<B256>,
    count: nat,
    j: int,
) -> (i: int)
    requires
        0 <= j < leaf_frauds(header, block, expected, count).len(),
    ensures
        0 <= i < count,
        wrong_leaf(block, expected, i),
        leaf_frauds(header, block, expected, count)[j] == (EvidenceView::DepositWrongLeaf {
            block: header,
            deposit_nr: i as u64,
            expected_leaf: expected[i],
            submitted_leaf: block.deposit_leaf(i)->0,
        }),
    decreases count,
{
    let before = leaf_frauds(header, block, expected, (count - 1) as nat);
    if j < before.len() {
        lemma_leaf_fraud_of(header, block, expected, (count - 1) as nat, j)
    } else {
        count - 1
    }
}

/// The evidence against leaves is in the order of the deposits, each of them once.
proof fn lemma_leaf_frauds_ordered(
    header: BlockView,
    block: BlockContents,
    expected: Seq<B256>,
    count: nat,
    j: int,
    k: int,
)
    requires
        count <= u64::MAX,
        0 <= j < k < leaf_frauds(header, block, expected, count).len(),
    ensures
        leaf_frauds(header, block, expected, count)[j]->DepositWrongLeaf_deposit_nr < leaf_frauds(
            header,
            block,
            expected,
            count,
        )[k]->DepositWrongLeaf_deposit_nr,
    decreases count,
{
    let before = leaf_frauds(header, block, expected, (count - 1) as nat);
    if k < before.len() {
        lemma_leaf_frauds_ordered(header, block, expected, (count - 1) as nat, j, k);
    } else {
        lemma_leaf_fraud_of(header, block, expected, (count - 1) as nat, j);
    }
}

/// Every deposit for which a leaf was recorded and the block holds another word, be it zero or
/// not, draws its evidence, which names the deposit and both words.
pub proof fn law_wrong_leaf_is_reported(
    header: BlockView,
    block: BlockContents,
    expected: Seq<B256>,
    i: int,
    submitted: B256,
)
    requires
        header.num_deposits@ <= usize::MAX,
        0 <= i < header.num_deposits@,
        i < expected.len(),
        i / 3 < block.deposit_groups.len(),
        i % 3 == 0 ==> submitted == block.deposit_groups[i / 3].leaf0,
        i % 3 == 1 ==> submitted == block.deposit_groups[i / 3].leaf1,
        i % 3 == 2 ==> submitted == block.deposit_groups[i / 3].leaf2,
        submitted@ != expected[i]@,
    ensures
        deposit_frauds(header, block, expected).contains(
            EvidenceView::DepositWrongLeaf {
                block: header,
                deposit_nr: i as u64,
                expected_leaf: expected[i],
                submitted_leaf: submitted,
            },
        ),
{
    let j = lemma_leaf_fraud_at(header, block, expected, checked_deposits(header, expected), i);
    let leaves = leaf_frauds(header, block, expected, checked_deposits(header, expected));
    assert(deposit_frauds(header, block, expected)[j] == leaves[j]);
}

/// Every slot of the last deposit group that no deposit uses and that holds another word than
/// zero draws its evidence, which names the group, the slot and the word.
pub proof fn law_wrong_padding_is_reported(
    header: BlockView,
    block: BlockContents,
    expected: Seq<B256>,
    group: int,
    slot: int,
    submitted: B256,
)
    requires
        header.num_deposits@ <= usize::MAX,
        0 <= group < block.deposit_groups.len(),
        1 <= slot < 3,
        3 * group < header.num_deposits@ <= 3 * group + slot,
        slot == 1 ==> submitted == block.deposit_groups[group].leaf1,
        slot == 2 ==> submitted == block.deposit_groups[group].leaf2,
        submitted@ != Seq::new(32, |b: int| 0u8),
    ensures
        deposit_frauds(header, block, expected).contains(
            EvidenceView::DepositPaddingNotZero {
                block: header,
                group_index: group as u64,
                slot_index: slot as u64,
                submitted_value: submitted,
            },
        ),
{
    lemma_zero_word();
    let n = header.num_deposits@;
    let leaves = leaf_frauds(header, block, expected, checked_deposits(header, expected));
    let first = slot_frauds(header, block, n, 1);
    let found = deposit_frauds(header, block, expected);
    assert(n / 3 == group && n % 3 == n - 3 * group);
    if slot == 1 {
        assert(found[leaves.len() as int] == first[0]);
    } else {
        assert(found[(leaves.len() + first.len()) as int] == slot_frauds(header, block, n, 2)[0]);
    }
}

/// Evidence against deposits is true: it names a deposit of the block for which another leaf
/// was recorded than the block holds, or a slot beyond the deposits that is not zero. No
/// evidence comes twice.
pub proof fn law_deposit_evidence_is_true(
    header: BlockView,
    block: BlockContents,
    expected: Seq<B256>,
    j: int,
)
    requires
        0 <= j < deposit_frauds(header, block, expected).len(),
    ensures
        match deposit_frauds(header, block, expected)[j] {
            EvidenceView::DepositWrongLeaf { block: named, deposit_nr, expected_leaf, submitted_leaf } => {
                &&& named == header
                &&& deposit_nr < header.num_deposits@
                &&& deposit_nr < expected.len()
                &&& deposit_nr / 3 < block.deposit_groups.len()
                &&& expected_leaf == expected[deposit_nr as int]
                &&& deposit_nr % 3 == 0 ==> submitted_leaf == block.deposit_groups[deposit_nr as int
                    / 3].leaf0
                &&& deposit_nr % 3 == 1 ==> submitted_leaf == block.deposit_groups[deposit_nr as int
                    / 3].leaf1
                &&& deposit_nr % 3 == 2 ==> submitted_leaf == block.deposit_groups[deposit_nr as int
                    / 3].leaf2
                &&& submitted_leaf@ != expected_leaf@
            },
            EvidenceView::DepositPaddingNotZero {
                block: named,
                group_index,
                slot_index,
                submitted_value,
            } => {
                &&& named == header
                &&& group_index < block.deposit_groups.len()
                &&& slot_index == 1 || slot_index == 2
                &&& 3 * group_index < header.num_deposits@ <= 3 * group_index + slot_index
                &&& slot_index == 1 ==> submitted_value == block.deposit_groups[group_index as int].leaf1
                &&& slot_index == 2 ==> submitted_value == block.deposit_groups[group_index as int].leaf2
                &&& submitted_value@ != Seq::new(32, |b: int| 0u8)
            },
            _ => false,
        },
        forall|k: int|
            j < k < deposit_frauds(header, block, expected).len() ==> deposit_frauds(
                header,
                block,
                expected,
            )[j] != #[trigger] deposit_frauds(header, block, expected)[k],
{
    lemma_zero_word();
    let n = header.num_deposits@;
    let count = checked_deposits(header, expected);
    let leaves = leaf_frauds(header, block, expected, count);
    let first = slot_frauds(header, block, n, 1);
    let found = deposit_frauds(header, block, expected);
    if j < leaves.len() {
        let i = lemma_leaf_fraud_of(header, block, expected, count, j);
        assert(found[j] == leaves[j]);
        lemma_b256_ext(block.deposit_leaf(i)->0, expected[i]);
    } else if j < leaves.len() + first.len() {
        assert(found[j] == first[j - leaves.len()]);
        lemma_b256_ext(found[j]->submitted_value, zero_word());
    } else {
        assert(found[j] == slot_frauds(header, block, n, 2)[j - leaves.len() - first.len()]);
        lemma_b256_ext(found[j]->submitted_value, zero_word());
    }
    assert forall|k: int| j < k < found.len() implies found[j] != #[trigger] found[k] by {
        if k < leaves.len() {
            lemma_leaf_frauds_ordered(header, block, expected, count, j, k);
            assert(found[k] == leaves[k] && found[j] == leaves[j]);
        } else if k < leaves.len() + first.len() {
            assert(found[k] == first[k - leaves.len()]);
        } else {
            assert(found[k] == slot_frauds(header, block, n, 2)[k - leaves.len() - first.len()]);
        }
    }
}

/// A block whose deposits draw no evidence holds every leaf that was recorded, at the deposit's
/// place, and zero in every slot that no deposit uses.
pub proof fn law_no_evidence_means_leaves_as_recorded(
    header: BlockView,
    block: BlockContents,
    expected: Seq<B256>,
)
    requires
        header.num_deposits@ <= usize::MAX,
        deposit_frauds(header, block, expected).len() == 0,
    ensures
        forall|g: int|
            0 <= g < block.deposit_groups.len() ==> {
                let group = #[trigger] block.deposit_groups[g];
                let n = header.num_deposits@;
                &&& 3 * g < n && 3 * g < expected.len() ==> group.leaf0 == expected[3 * g]
                &&& 3 * g + 1 < n && 3 * g + 1 < expected.len() ==> group.leaf1 == expected[3 * g + 1]
                &&& 3 * g + 2 < n && 3 * g + 2 < expected.len() ==> group.leaf2 == expected[3 * g + 2]
                &&& n == 3 * g + 1 ==> group.leaf1@ == Seq::new(32, |b: int| 0u8)
                &&& n == 3 * g + 1 || n == 3 * g + 2 ==> group.leaf2@ == Seq::new(32, |b: int| 0u8)
            },
{
    lemma_zero_word();
    law_no_evidence_iff_deposits_kept(header, block, expected);
    assert forall|g: int| 0 <= g < block.deposit_groups.len() implies ({
        let group = #[trigger] block.deposit_groups[g];
        let n = header.num_deposits@;
        &&& 3 * g < n && 3 * g < expected.len() ==> group.leaf0 == expected[3 * g]
        &&& 3 * g + 1 < n && 3 * g + 1 < expected.len() ==> group.leaf1 == expected[3 * g + 1]
        &&& 3 * g + 2 < n && 3 * g + 2 < expected.len() ==> group.leaf2 == expected[3 * g + 2]
        &&& n == 3 * g + 1 ==> group.leaf1@ == Seq::new(32, |b: int| 0u8)
        &&& n == 3 * g + 1 || n == 3 * g + 2 ==> group.leaf2@ == Seq::new(32, |b: int| 0u8)
    }) by {
        assert(!wrong_leaf(block, expected, 3 * g) || !(3 * g < checked_deposits(header, expected)));
        assert(!wrong_leaf(block, expected, 3 * g + 1) || !(3 * g + 1 < checked_deposits(
            header,
            expected,
        )));
        assert(!wrong_leaf(block, expected, 3 * g + 2) || !(3 * g + 2 < checked_deposits(
            header,
            expected,
        )));
        assert((3 * g) / 3 == g && (3 * g + 1) / 3 == g && (3 * g + 2) / 3 == g);
    }
}

} // verus!
