//! Reading a block out of the fields of its blobs.

use crate::challenge::memory::{
    anchor_address, block_length, deposit_groups, deposit_leaf_address, leaf_address,
    nullifier_address, tx_address,
};
use crate::kzg::{field_bytes, read_word};
use crate::types::{lemma_zero_word, zero_word, Address, B256};
use vstd::prelude::*;

verus! {

/// Number of fields in a blob.
pub const BLOB_SIZE: usize = 4096;

/// The fields of one blob.
pub type Blob = [B256; 4096];

/// A Groth16 proof, one coordinate per field.
#[derive(Clone, Copy, Debug)]
pub struct Groth16Proof {
    pub a_x: B256,
    pub a_y: B256,
    pub b_x0: B256,
    pub b_x1: B256,
    pub b_y0: B256,
    pub b_y1: B256,
    pub c_x: B256,
    pub c_y: B256,
}

/// Three deposits, and the root after they went into the tree.
#[derive(Clone, Copy, Debug)]
pub struct DepositGroup {
    pub leaf0: B256,
    pub leaf1: B256,
    pub leaf2: B256,
    pub new_root: B256,
}

/// A transaction, and the root after its leaves went into the tree.
#[derive(Clone, Copy, Debug)]
pub struct ParsedTransaction {
    pub proof: Groth16Proof,
    /// The anchor that the proof is made against, packed with the account that has
    /// to authorise the transaction.
    pub anchor_info: B256,
    pub nullifier0: B256,
    pub nullifier1: B256,
    pub leaf0: B256,
    pub leaf1: B256,
    pub leaf2: B256,
    pub new_root: B256,
}

/// What a transaction says of the anchor that it uses.
#[derive(Clone, Copy, Debug)]
pub struct DecodedAnchorInfo {
    /// Block whose tree the anchor is a root of.
    pub block_nr: u32,
    /// Deposit group or transaction of that block after which it was the root.
    pub update_nr: u32,
    /// Whether it follows a deposit group.
    pub is_deposit: bool,
    /// Account that has to authorise the transaction; zero where none has to.
    pub eth_key: Address,
}

/// Field `k` of a block, counted through all its blobs.
pub open spec fn field_at(blobs: Seq<Blob>, k: int) -> B256 {
    blobs[k / 4096]@[k % 4096]
}

/// The deposit group of index `g`.
pub open spec fn group_at(blobs: Seq<Blob>, g: int) -> DepositGroup {
    DepositGroup {
        leaf0: field_at(blobs, 4 * g),
        leaf1: field_at(blobs, 4 * g + 1),
        leaf2: field_at(blobs, 4 * g + 2),
        new_root: field_at(blobs, 4 * g + 3),
    }
}

/// The transaction whose first field is `start`.
pub open spec fn tx_at(blobs: Seq<Blob>, start: int) -> ParsedTransaction {
    ParsedTransaction {
        proof: Groth16Proof {
            a_x: field_at(blobs, start),
            a_y: field_at(blobs, start + 1),
            b_x0: field_at(blobs, start + 2),
            b_x1: field_at(blobs, start + 3),
            b_y0: field_at(blobs, start + 4),
            b_y1: field_at(blobs, start + 5),
            c_x: field_at(blobs, start + 6),
            c_y: field_at(blobs, start + 7),
        },
        anchor_info: field_at(blobs, start + 8),
        nullifier0: field_at(blobs, start + 9),
        nullifier1: field_at(blobs, start + 10),
        leaf0: field_at(blobs, start + 11),
        leaf1: field_at(blobs, start + 12),
        leaf2: field_at(blobs, start + 13),
        new_root: field_at(blobs, start + 14),
    }
}

/// What a block with the given counts consists of.
#[verifier::ext_equal]
pub struct BlockContents {
    pub deposit_groups: Seq<DepositGroup>,
    pub transactions: Seq<ParsedTransaction>,
}

/// The block that blobs hold.
pub open spec fn block_contents(
    blobs: Seq<Blob>,
    num_deposits: nat,
    num_transactions: nat,
) -> BlockContents {
    BlockContents {
        deposit_groups: Seq::new(deposit_groups(num_deposits), |g: int| group_at(blobs, g)),
        transactions: Seq::new(
            num_transactions,
            |t: int| tx_at(blobs, tx_address(t as nat, num_deposits) as int),
        ),
    }
}

/// A block as its parts.
#[derive(Debug)]
pub struct ParsedBlock {
    pub deposit_groups: Vec<DepositGroup>,
    pub transactions: Vec<ParsedTransaction>,
}

impl View for ParsedBlock {
    type V = BlockContents;

    open spec fn view(&self) -> BlockContents {
        BlockContents {
            deposit_groups: self.deposit_groups@,
            transactions: self.transactions@,
        }
    }
}

impl BlockContents {
    /// The leaf of a deposit, where the block has its group.
    pub open spec fn deposit_leaf(self, deposit_nr: int) -> Option<B256> {
        if 0 <= deposit_nr && deposit_nr / 3 < self.deposit_groups.len() {
            Some(group_leaf(self.deposit_groups[deposit_nr / 3], deposit_nr % 3))
        } else {
            None
        }
    }
}

/// Leaf `slot` of a deposit group.
pub open spec fn group_leaf(group: DepositGroup, slot: int) -> B256 {
    if slot == 0 {
        group.leaf0
    } else if slot == 1 {
        group.leaf1
    } else {
        group.leaf2
    }
}

/// Why a block cannot be read.
#[derive(Clone, Copy, Debug, PartialEq, Eq, Structural)]
pub enum BlobError {
    /// The blobs end before the block does.
    TooFewFields,
    /// The block has no such deposit.
    NoSuchDeposit,
}

/// The field at address `k` of a block.
fn read_field(blobs: &[Blob], k: usize) -> (r: B256)
    requires
        k < 4096 * blobs@.len(),
    ensures
        r == field_at(blobs@, k as int),
{
    blobs[k / 4096][k % 4096]
}

/// The transaction that starts at field `start`.
fn read_transaction(blobs: &[Blob], start: usize) -> (r: ParsedTransaction)
    requires
        start + 15 <= 4096 * blobs@.len(),
        start + 15 <= usize::MAX,
    ensures
        r == tx_at(blobs@, start as int),
{
    ParsedTransaction {
        proof: Groth16Proof {
            a_x: read_field(blobs, start),
            a_y: read_field(blobs, start + 1),
            b_x0: read_field(blobs, start + 2),
            b_x1: read_field(blobs, start + 3),
            b_y0: read_field(blobs, start + 4),
            b_y1: read_field(blobs, start + 5),
            c_x: read_field(blobs, start + 6),
            c_y: read_field(blobs, start + 7),
        },
        anchor_info: read_field(blobs, start + 8),
        nullifier0: read_field(blobs, start + 9),
        nullifier1: read_field(blobs, start + 10),
        leaf0: read_field(blobs, start + 11),
        leaf1: read_field(blobs, start + 12),
        leaf2: read_field(blobs, start + 13),
        new_root: read_field(blobs, start + 14),
    }
}

impl ParsedBlock {
    /// Reads a block with the given numbers of deposits and transactions. Fails
    /// exactly where the blobs end before the block does.
    pub fn from_blobs(blobs: &[Blob], num_deposits: usize, num_transactions: usize) -> (r: Result<
        ParsedBlock,
        BlobError,
    >)
        requires
            4096 * blobs@.len() <= usize::MAX,
        ensures
            r is Ok <==> block_length(num_deposits as nat, num_transactions as nat) <= 4096
                * blobs@.len(),
            r matches Ok(b) ==> b@ == block_contents(
                blobs@,
                num_deposits as nat,
                num_transactions as nat,
            ),
            r matches Err(e) ==> e == BlobError::TooFewFields,
    {
        let groups: usize = if num_deposits % 3 == 0 {
            num_deposits / 3
        } else {
            num_deposits / 3 + 1
        };
        let total: u128 = (groups as u128) * 4 + (num_transactions as u128) * 15;
        if total > (blobs.len() as u128) * 4096 {
            return Err(BlobError::TooFewFields);
        }
        let mut deposit_groups: Vec<DepositGroup> = Vec::new();
        let mut g: usize = 0;
        while g < groups
            invariant
                g <= groups,
                4096 * blobs@.len() <= usize::MAX,
                groups * 4 <= 4096 * blobs@.len(),
                deposit_groups@.len() == g,
                forall|i: int| 0 <= i < g ==> deposit_groups@[i] == group_at(blobs@, i),
            decreases groups - g,
        {
            let address: usize = g * 4;
            deposit_groups.push(
                DepositGroup {
                    leaf0: read_field(blobs, address),
                    leaf1: read_field(blobs, address + 1),
                    leaf2: read_field(blobs, address + 2),
                    new_root: read_field(blobs, address + 3),
                },
            );
            g += 1;
        }
        let mut transactions: Vec<ParsedTransaction> = Vec::new();
        let mut t: usize = 0;
        while t < num_transactions
            invariant
                t <= num_transactions,
                4096 * blobs@.len() <= usize::MAX,
                groups * 4 + num_transactions * 15 <= 4096 * blobs@.len(),
                groups == crate::challenge::memory::deposit_groups(num_deposits as nat),
                transactions@.len() == t,
                forall|i: int|
                    0 <= i < t ==> transactions@[i] == tx_at(
                        blobs@,
                        tx_address(i as nat, num_deposits as nat) as int,
                    ),
            decreases num_transactions - t,
        {
            transactions.push(read_transaction(blobs, groups * 4 + t * 15));
            t += 1;
        }
        Ok(ParsedBlock { deposit_groups, transactions })
    }

    /// The leaf of a deposit. Fails exactly where the block has no group for it.
    pub fn get_deposit_leaf(&self, deposit_nr: usize) -> (r: Result<B256, BlobError>)
        ensures
            r is Ok <==> self@.deposit_leaf(deposit_nr as int) is Some,
            r matches Ok(leaf) ==> self@.deposit_leaf(deposit_nr as int) == Some(leaf),
            r matches Err(e) ==> e == BlobError::NoSuchDeposit,
    {
        let g = deposit_nr / 3;
        if g < self.deposit_groups.len() {
            let group = &self.deposit_groups[g];
            let slot = deposit_nr % 3;
            if slot == 0 {
                Ok(group.leaf0)
            } else if slot == 1 {
                Ok(group.leaf1)
            } else {
                Ok(group.leaf2)
            }
        } else {
            Err(BlobError::NoSuchDeposit)
        }
    }
}

/// Every part of a block stands at the address that the layout gives it: the leaf of
/// each deposit, the root after each deposit group, and the nullifiers, the leaves
/// and the root of each transaction.
pub proof fn law_contents_at_addresses(blobs: Seq<Blob>, num_deposits: nat, num_transactions: nat)
    ensures
        ({
            let block = block_contents(blobs, num_deposits, num_transactions);
            &&& forall|d: int|
                0 <= d < num_deposits ==> #[trigger] block.deposit_leaf(d) == Some(
                    field_at(blobs, deposit_leaf_address(d as nat) as int),
                )
            &&& forall|g: int|
                0 <= g < deposit_groups(num_deposits)
                    ==> (#[trigger] block.deposit_groups[g]).new_root == field_at(
                    blobs,
                    anchor_address(g as nat, num_deposits, true) as int,
                )
            &&& forall|t: int|
                0 <= t < num_transactions ==> {
                    let tx = #[trigger] block.transactions[t];
                    &&& tx.nullifier0 == field_at(
                        blobs,
                        nullifier_address(t as nat, num_deposits, 0) as int,
                    )
                    &&& tx.nullifier1 == field_at(
                        blobs,
                        nullifier_address(t as nat, num_deposits, 1) as int,
                    )
                    &&& tx.leaf0 == field_at(
                        blobs,
                        leaf_address(t as nat, num_deposits, false, 0) as int,
                    )
                    &&& tx.leaf1 == field_at(
                        blobs,
                        leaf_address(t as nat, num_deposits, false, 1) as int,
                    )
                    &&& tx.leaf2 == field_at(
                        blobs,
                        leaf_address(t as nat, num_deposits, false, 2) as int,
                    )
                    &&& tx.new_root == field_at(
                        blobs,
                        anchor_address(t as nat, num_deposits, false) as int,
                    )
                }
        }),
{
    let block = block_contents(blobs, num_deposits, num_transactions);
    assert forall|d: int| 0 <= d < num_deposits implies #[trigger] block.deposit_leaf(d) == Some(
        field_at(blobs, deposit_leaf_address(d as nat) as int),
    ) by {
        assert(d / 3 < deposit_groups(num_deposits));
        assert(deposit_leaf_address(d as nat) == 4 * (d / 3) + d % 3);
    }
}

/// Whether field `i` of a blob is what `data` holds there. A field that `data` ends
/// before or within is zero.
pub open spec fn holds_field(blob: Blob, data: Seq<u8>, i: int) -> bool {
    if 32 * i + 32 <= data.len() {
        blob@[i]@ == field_bytes(data, i)
    } else {
        blob@[i] == zero_word()
    }
}

/// Whether `blob` holds the fields that the bytes of `data` spell.
pub open spec fn holds_bytes(blob: Blob, data: Seq<u8>) -> bool {
    forall|i: int| 0 <= i < 4096 ==> #[trigger] holds_field(blob, data, i)
}

/// The fields of a blob of which the bytes are given.
pub fn blob_from_bytes(data: &[u8]) -> (r: Blob)
    ensures
        holds_bytes(r, data@),
{
    let len: usize = data.len();
    let mut blob = [B256::zero();4096];
    let mut i: usize = 0;
    while i < 4096
        invariant
            i <= 4096,
            len == data@.len(),
            forall|j: int| 0 <= j < i ==> #[trigger] holds_field(blob, data@, j),
            forall|j: int| i <= j < 4096 ==> blob@[j] == zero_word(),
        decreases 4096 - i,
    {
        if len < 32 || i * 32 > len - 32 {
            assert(32 * i + 32 > data@.len());
        } else {
            let ghost before = blob;
            blob[i] = read_word(data, i * 32);
            assert forall|j: int| 0 <= j < i implies #[trigger] holds_field(blob, data@, j) by {
                assert(holds_field(before, data@, j));
            }
        }
        assert(holds_field(blob, data@, i as int));
        i += 1;
    }
    blob
}

/// The fields of all blobs of a block.
pub fn blobs_from_bytes(data: &[Vec<u8>]) -> (r: Vec<Blob>)
    ensures
        r@.len() == data@.len(),
        forall|i: int| 0 <= i < data@.len() ==> #[trigger] holds_bytes(r@[i], data@[i]@),
{
    let mut blobs: Vec<Blob> = Vec::new();
    let mut i: usize = 0;
    while i < data.len()
        invariant
            i <= data@.len(),
            blobs@.len() == i,
            forall|j: int| 0 <= j < i ==> #[trigger] holds_bytes(blobs@[j], data@[j]@),
        decreases data@.len() - i,
    {
        blobs.push(blob_from_bytes(&data[i]));
        i += 1;
    }
    blobs
}

/// The fields of a block are counted through its blobs, 4096 to each.
pub proof fn law_fields_are_counted_through_blobs(blobs: Seq<Blob>, b: int, i: int)
    requires
        0 <= b < blobs.len(),
        0 <= i < 4096,
    ensures
        field_at(blobs, 4096 * b + i) == blobs[b]@[i],
{
    assert((4096 * b + i) / 4096 == b);
    assert((4096 * b + i) % 4096 == i);
}

/// The deposits of a block come first, three to a group of four fields: the leaves, and then the
/// root. There are as many groups as hold the deposits, the last being filled up.
pub proof fn law_deposit_group_fields(
    blobs: Seq<Blob>,
    num_deposits: nat,
    num_transactions: nat,
    g: int,
)
    requires
        0 <= g,
        3 * g < num_deposits,
    ensures
        ({
            let groups = block_contents(blobs, num_deposits, num_transactions).deposit_groups;
            &&& g < groups.len()
            &&& num_deposits <= 3 * groups.len() < num_deposits + 3
            &&& groups[g].leaf0 == field_at(blobs, 4 * g)
            &&& groups[g].leaf1 == field_at(blobs, 4 * g + 1)
            &&& groups[g].leaf2 == field_at(blobs, 4 * g + 2)
            &&& groups[g].new_root == field_at(blobs, 4 * g + 3)
        }),
{
}

/// The transactions of a block follow on its deposits, fifteen fields to each: the eight
/// coordinates of the proof, what is said of the anchor, two nullifiers, three leaves and the
/// root.
pub proof fn law_transaction_fields(
    blobs: Seq<Blob>,
    num_deposits: nat,
    num_transactions: nat,
    t: int,
)
    requires
        0 <= t < num_transactions,
    ensures
        ({
            let transactions = block_contents(blobs, num_deposits, num_transactions).transactions;
            let tx = transactions[t];
            let at = 4 * ((num_deposits + 2) / 3) + 15 * t;
            &&& transactions.len() == num_transactions
            &&& tx.proof.a_x == field_at(blobs, at)
            &&& tx.proof.a_y == field_at(blobs, at + 1)
            &&& tx.proof.b_x0 == field_at(blobs, at + 2)
            &&& tx.proof.b_x1 == field_at(blobs, at + 3)
            &&& tx.proof.b_y0 == field_at(blobs, at + 4)
            &&& tx.proof.b_y1 == field_at(blobs, at + 5)
            &&& tx.proof.c_x == field_at(blobs, at + 6)
            &&& tx.proof.c_y == field_at(blobs, at + 7)
            &&& tx.anchor_info == field_at(blobs, at + 8)
            &&& tx.nullifier0 == field_at(blobs, at + 9)
            &&& tx.nullifier1 == field_at(blobs, at + 10)
            &&& tx.leaf0 == field_at(blobs, at + 11)
            &&& tx.leaf1 == field_at(blobs, at + 12)
            &&& tx.leaf2 == field_at(blobs, at + 13)
            &&& tx.new_root == field_at(blobs, at + 14)
        }),
{
}

/// A field holds the 32 bytes that stand at its place among the bytes of the blob, in their
/// order; one that the bytes end before is zero.
pub proof fn law_field_is_its_bytes(blob: Blob, data: Seq<u8>, i: int, b: int)
    requires
        holds_bytes(blob, data),
        0 <= i < 4096,
        0 <= b < 32,
    ensures
        32 * i + 32 <= data.len() ==> blob@[i]@[b] == data[32 * i + b],
        32 * i + 32 > data.len() ==> blob@[i]@[b] == 0,
{
    lemma_zero_word();
    assert(holds_field(blob, data, i));
    if 32 * i + 32 > data.len() {
        assert(zero_word()@[b] == Seq::new(32, |k: int| 0u8)[b]);
    }
}

} // verus!
