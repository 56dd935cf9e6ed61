//! What the checks of a block say of the fields that it is read from.
//!
//! A block of `n` deposits has `(n + 2) / 3` deposit groups of four fields each, and then fifteen
//! fields to each transaction.

use crate::blob::{
    block_contents, field_at, law_deposit_group_fields, law_transaction_fields, Blob, DecodedAnchorInfo,
};
use crate::challenge::laws::submitted_words;
use crate::groth16::transfer_scalars;
use crate::types::{be_value, bn254_order, lemma_b256_ext, BlockView, B256};
use crate::validators::deposit::{
    deposit_frauds, law_deposit_evidence_is_true, law_wrong_leaf_is_reported,
    law_wrong_padding_is_reported,
};
use crate::validators::nullifier::revealed;
use crate::validators::transaction::{
    inputs_of, law_proof_is_verified_for_its_transaction, law_registry_is_asked_for_the_transaction,
    proof_verdict, VerdictView,
};
use crate::validators::tree_update::{claimed_root, law_leaves_stand_in_place, leaves_after, updates_of};
use crate::validators::EvidenceView;
use vstd::prelude::*;

verus! {

/// A deposit that a block leaves out or puts in wrongly is reported: wherever the field of a
/// deposit is not the leaf that was recorded for it, be the field zero or not.
pub proof fn law_field_of_each_deposit_is_checked(
    header: BlockView,
    fields: Seq<Blob>,
    expected: Seq<B256>,
    i: int,
)
    requires
        header.num_deposits@ <= usize::MAX,
        0 <= i < header.num_deposits@,
        i < expected.len(),
    ensures
        ({
            let block = block_contents(fields, header.num_deposits@, header.num_transactions@);
            let submitted = field_at(fields, 4 * (i / 3) + i % 3);
            let found = deposit_frauds(header, block, expected);
            &&& submitted != expected[i] ==> found.contains(
                EvidenceView::DepositWrongLeaf {
                    block: header,
                    deposit_nr: i as u64,
                    expected_leaf: expected[i],
                    submitted_leaf: submitted,
                },
            )
            &&& found.len() == 0 ==> submitted == expected[i]
        }),
{
    let n = header.num_deposits@;
    let block = block_contents(fields, n, header.num_transactions@);
    let submitted = field_at(fields, 4 * (i / 3) + i % 3);
    law_deposit_group_fields(fields, n, header.num_transactions@, i / 3);
    lemma_b256_ext(submitted, expected[i]);
    if submitted != expected[i] {
        law_wrong_leaf_is_reported(header, block, expected, i, submitted);
    }
}

/// The fields of the last deposit group that no deposit uses have to be zero.
pub proof fn law_field_of_each_unused_slot_is_checked(
    header: BlockView,
    fields: Seq<Blob>,
    expected: Seq<B256>,
    group: int,
    slot: int,
)
    requires
        header.num_deposits@ <= usize::MAX,
        0 <= group,
        1 <= slot < 3,
        3 * group < header.num_deposits@ <= 3 * group + slot,
    ensures
        ({
            let block = block_contents(fields, header.num_deposits@, header.num_transactions@);
            let submitted = field_at(fields, 4 * group + slot);
            let found = deposit_frauds(header, block, expected);
            &&& submitted@ != Seq::new(32, |b: int| 0u8) ==> found.contains(
                EvidenceView::DepositPaddingNotZero {
                    block: header,
                    group_index: group as u64,
                    slot_index: slot as u64,
                    submitted_value: submitted,
                },
            )
            &&& found.len() == 0 ==> submitted@ == Seq::new(32, |b: int| 0u8)
        }),
{
    let n = header.num_deposits@;
    let block = block_contents(fields, n, header.num_transactions@);
    let submitted = field_at(fields, 4 * group + slot);
    law_deposit_group_fields(fields, n, header.num_transactions@, group);
    if submitted@ != Seq::new(32, |b: int| 0u8) {
        law_wrong_padding_is_reported(header, block, expected, group, slot, submitted);
    }
}

/// A block that holds, in the field of each deposit, the leaf that was recorded, and zero in the
/// fields that no deposit uses, draws no evidence.
pub proof fn law_honest_deposits_draw_no_evidence(
    header: BlockView,
    fields: Seq<Blob>,
    expected: Seq<B256>,
)
    requires
        forall|i: int|
            0 <= i < header.num_deposits@ && i < expected.len() ==> field_at(
                fields,
                4 * (i / 3) + i % 3,
            ) == #[trigger] expected[i],
        ({
            let n = header.num_deposits@ as int;
            &&& n % 3 == 1 ==> field_at(fields, 4 * (n / 3) + 1)@ == Seq::new(32, |b: int| 0u8)
            &&& n % 3 != 0 ==> field_at(fields, 4 * (n / 3) + 2)@ == Seq::new(32, |b: int| 0u8)
        }),
    ensures
        deposit_frauds(
            header,
            block_contents(fields, header.num_deposits@, header.num_transactions@),
            expected,
        ).len() == 0,
{
    let n = header.num_deposits@;
    let block = block_contents(fields, n, header.num_transactions@);
    let found = deposit_frauds(header, block, expected);
    if found.len() > 0 {
        law_deposit_evidence_is_true(header, block, expected, 0);
        match found[0] {
            EvidenceView::DepositWrongLeaf { deposit_nr, .. } => {
                law_deposit_group_fields(
                    fields,
                    n,
                    header.num_transactions@,
                    deposit_nr as int / 3,
                );
                assert(field_at(fields, 4 * (deposit_nr as int / 3) + deposit_nr as int % 3)
                    == expected[deposit_nr as int]);
            },
            EvidenceView::DepositPaddingNotZero { group_index, slot_index, .. } => {
                law_deposit_group_fields(fields, n, header.num_transactions@, group_index as int);
                assert(n as int / 3 == group_index);
            },
            _ => {},
        }
    }
}

/// The proof of a transaction is verified for the fields of the transaction as they stand in the
/// blob: the first five inputs are its fields nine to thirteen, the next is the anchor that was
/// looked up, and the last the account.
pub proof fn law_proof_is_verified_for_its_fields(
    fields: Seq<Blob>,
    num_deposits: nat,
    num_transactions: nat,
    t: int,
    info: DecodedAnchorInfo,
    anchor: B256,
    i: int,
)
    requires
        0 <= t < num_transactions,
        0 <= i < 5,
    ensures
        ({
            let tx = block_contents(fields, num_deposits, num_transactions).transactions[t];
            let inputs = transfer_scalars(inputs_of(tx, info, anchor));
            let at = 4 * ((num_deposits + 2) / 3) + 15 * t;
            &&& inputs.len() == 7
            &&& inputs[i] == be_value(field_at(fields, at + 9 + i)@) % bn254_order()@
            &&& inputs[i] == be_value(submitted_words(tx)[9 + i]) % bn254_order()@
            &&& inputs[5] == be_value(anchor@) % bn254_order()@
            &&& inputs[6] == be_value(info.eth_key@) % bn254_order()@
        }),
{
    let tx = block_contents(fields, num_deposits, num_transactions).transactions[t];
    law_transaction_fields(fields, num_deposits, num_transactions, t);
    law_proof_is_verified_for_its_transaction(tx, info, anchor);
}

/// Where a transaction has to be authorised, the registry is asked for the fields nine to
/// thirteen of the transaction as they stand in the blob, in that order, and for the account
/// that the transaction names.
pub proof fn law_registry_is_asked_for_the_fields(
    header: BlockView,
    fields: Seq<Blob>,
    num_deposits: nat,
    num_transactions: nat,
    t: int,
    info: DecodedAnchorInfo,
    i: int,
)
    requires
        0 <= t < num_transactions,
        0 <= i < 5,
        info.eth_key@ != Seq::new(20, |b: int| 0u8),
    ensures
        ({
            let tx = block_contents(fields, num_deposits, num_transactions).transactions[t];
            let at = 4 * ((num_deposits + 2) / 3) + 15 * t;
            &&& proof_verdict(header, t as u64, tx, info, true) matches
                VerdictView::NeedsAuthorization { evidence, eth_key, fields: asked }
            &&& eth_key == info.eth_key
            &&& asked@[i] == field_at(fields, at + 9 + i)
            &&& asked@[i]@ == submitted_words(tx)[9 + i]
            &&& evidence matches EvidenceView::MissingEthKeyAuth { nullifiers, leaves, .. }
            &&& i < 2 ==> nullifiers@[i] == asked@[i]
            &&& i >= 2 ==> leaves@[i - 2] == asked@[i]
        }),
{
    let tx = block_contents(fields, num_deposits, num_transactions).transactions[t];
    law_transaction_fields(fields, num_deposits, num_transactions, t);
    law_registry_is_asked_for_the_transaction(header, t as u64, tx, info);
    let verdict = proof_verdict(header, t as u64, tx, info, true);
    let asked = verdict->NeedsAuthorization_fields;
    let evidence = verdict->NeedsAuthorization_evidence;
    if i < 2 {
        assert(evidence->MissingEthKeyAuth_nullifiers@[i] == asked@.subrange(0, 2)[i]);
    } else {
        assert(evidence->MissingEthKeyAuth_leaves@[i - 2] == asked@.subrange(2, 5)[i - 2]);
    }
}

/// The nullifiers that a block reveals are the fields nine and ten of each of its transactions.
pub proof fn law_nullifiers_are_fields(
    fields: Seq<Blob>,
    num_deposits: nat,
    num_transactions: nat,
    t: int,
    which: int,
)
    requires
        0 <= t < num_transactions,
        0 <= which < 2,
    ensures
        revealed(
            block_contents(fields, num_deposits, num_transactions).transactions,
            2 * t + which,
        ) == field_at(fields, 4 * ((num_deposits + 2) / 3) + 15 * t + 9 + which),
{
    law_transaction_fields(fields, num_deposits, num_transactions, t);
    assert((2 * t + which) / 2 == t && (2 * t + which) % 2 == which);
}

/// The leaves that the updates of a block put into its tree are the fields of its deposit groups
/// and of its transactions, in their order, and the root that an update claims is the field
/// right behind its leaves.
pub proof fn law_leaves_are_fields(
    fields: Seq<Blob>,
    num_deposits: nat,
    num_transactions: nat,
    start: nat,
    count: nat,
    k: int,
    s: int,
)
    requires
        0 <= k < count <= (num_deposits + 2) / 3 + num_transactions,
        0 <= s < 3,
    ensures
        ({
            let block = block_contents(fields, num_deposits, num_transactions);
            let groups = ((num_deposits + 2) / 3) as int;
            let first = if k < groups {
                4 * k
            } else {
                4 * groups + 15 * (k - groups) + 11
            };
            let leaves = leaves_after(updates_of(block), start, count);
            &&& leaves.contains_key(start + 3 * k + s)
            &&& leaves[start + 3 * k + s] == field_at(fields, first + s)
            &&& updates_of(block)[k].new_root == field_at(fields, first + 3)
            &&& claimed_root(block, k) == field_at(fields, first + 3)
            &&& updates_of(block)[k].is_tx == (k >= groups)
        }),
{
    let block = block_contents(fields, num_deposits, num_transactions);
    let groups = ((num_deposits + 2) / 3) as int;
    law_leaves_stand_in_place(updates_of(block), start, count, k, s);
    if k < groups {
        law_deposit_group_fields(fields, num_deposits, num_transactions, k);
    } else {
        law_transaction_fields(fields, num_deposits, num_transactions, k - groups);
    }
}

} // verus!
