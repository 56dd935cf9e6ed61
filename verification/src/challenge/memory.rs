//! Where the fields of a block lie in its blobs.
//!
//! A block is a run of 32-byte fields. The deposits come first, three to a group
//! of four fields (three leaves and the root after them), then the transactions
//! at fifteen fields each: eight of the proof, the anchor reference, two
//! nullifiers, three leaves and the root after them.

use vstd::prelude::*;

verus! {

/// Number of field elements per blob.
pub const FIELDS_PER_BLOB: usize = 4096;

/// Number of deposit groups that hold `num_deposits` deposits.
pub open spec fn deposit_groups(num_deposits: nat) -> nat {
    (num_deposits + 2) / 3
}

/// Fields taken by the deposits of a block.
pub open spec fn deposits_length(num_deposits: nat) -> nat {
    deposit_groups(num_deposits) * 4
}

/// Fields taken by a whole block.
pub open spec fn block_length(num_deposits: nat, num_transactions: nat) -> nat {
    deposits_length(num_deposits) + num_transactions * 15
}

/// First field of a transaction.
pub open spec fn tx_address(tx_number: nat, num_deposits: nat) -> nat {
    deposits_length(num_deposits) + tx_number * 15
}

/// Field of the root that a deposit group or a transaction leaves behind.
pub open spec fn anchor_address(update_nr: nat, num_deposits: nat, is_deposit: bool) -> nat {
    if is_deposit {
        update_nr * 4 + 3
    } else {
        tx_address(update_nr, num_deposits) + 14
    }
}

/// Field of the root that an update leaves behind, the updates of a block being counted
/// through its deposit groups and then its transactions.
pub open spec fn root_address(update_nr: nat, num_deposits: nat) -> nat {
    let groups = deposit_groups(num_deposits);
    if update_nr < groups {
        anchor_address(update_nr, num_deposits, true)
    } else {
        anchor_address((update_nr - groups) as nat, num_deposits, false)
    }
}

/// Field of the leaf of a deposit.
pub open spec fn deposit_leaf_address(deposit_nr: nat) -> nat {
    deposit_nr + deposit_nr / 3
}

/// Field of the leaf of a deposit, or of one of the three leaves of a transaction.
pub open spec fn leaf_address(number: nat, num_deposits: nat, is_deposit: bool, which: nat) -> nat {
    if is_deposit {
        deposit_leaf_address(number)
    } else {
        tx_address(number, num_deposits) + 11 + which
    }
}

/// Field of one of the two nullifiers of a transaction.
pub open spec fn nullifier_address(tx_number: nat, num_deposits: nat, which: nat) -> nat {
    tx_address(tx_number, num_deposits) + 9 + which
}

/// Fields taken by the deposits of a block, partial groups being padded.
pub fn num_deposits_to_memory_length(num_deposits: u64) -> (r: u64)
    requires
        deposits_length(num_deposits as nat) <= u64::MAX,
    ensures
        r == deposits_length(num_deposits as nat),
{
    let groups: u64 = if num_deposits % 3 == 0 {
        num_deposits / 3
    } else {
        num_deposits / 3 + 1
    };
    groups * 4
}

/// Field of the root that an update leaves behind: the last field of deposit group
/// `update_nr`, or of transaction `update_nr`.
pub fn anchor_memory_address(update_nr: u64, num_deposits: u64, is_deposit: bool) -> (r: u64)
    requires
        anchor_address(update_nr as nat, num_deposits as nat, is_deposit) <= u64::MAX,
    ensures
        r == anchor_address(update_nr as nat, num_deposits as nat, is_deposit),
{
    if is_deposit {
        update_nr * 4 + 3
    } else {
        num_deposits_to_memory_length(num_deposits) + update_nr * 15 + 14
    }
}

/// Field of the root that an update leaves behind, the updates of a block being counted
/// through its deposit groups and then its transactions.
pub fn root_memory_address(update_nr: u64, num_deposits: u64) -> (r: u64)
    requires
        root_address(update_nr as nat, num_deposits as nat) <= u64::MAX,
    ensures
        r == root_address(update_nr as nat, num_deposits as nat),
{
    let groups: u64 = if num_deposits % 3 == 0 {
        num_deposits / 3
    } else {
        num_deposits / 3 + 1
    };
    if update_nr < groups {
        anchor_memory_address(update_nr, num_deposits, true)
    } else {
        anchor_memory_address(update_nr - groups, num_deposits, false)
    }
}

/// First field of a transaction.
pub fn tx_memory_address(tx_number: u64, num_deposits: u64) -> (r: u64)
    requires
        tx_address(tx_number as nat, num_deposits as nat) <= u64::MAX,
    ensures
        r == tx_address(tx_number as nat, num_deposits as nat),
{
    num_deposits_to_memory_length(num_deposits) + tx_number * 15
}

/// Field of a leaf: that of deposit `number`, or leaf `which` of transaction
/// `number`.
pub fn leaf_memory_address(number: u64, num_deposits: u64, is_deposit: bool, which: u64) -> (r: u64)
    requires
        which < 3,
        leaf_address(number as nat, num_deposits as nat, is_deposit, which as nat) <= u64::MAX,
    ensures
        r == leaf_address(number as nat, num_deposits as nat, is_deposit, which as nat),
{
    if is_deposit {
        number + number / 3
    } else {
        num_deposits_to_memory_length(num_deposits) + number * 15 + 11 + which
    }
}

/// Field of nullifier `which` of a transaction.
pub fn nullifier_memory_address(tx_number: u64, num_deposits: u64, which: u64) -> (r: u64)
    requires
        which < 2,
        nullifier_address(tx_number as nat, num_deposits as nat, which as nat) <= u64::MAX,
    ensures
        r == nullifier_address(tx_number as nat, num_deposits as nat, which as nat),
{
    num_deposits_to_memory_length(num_deposits) + tx_number * 15 + 9 + which
}

/// The blob that holds a field, and the field's index within it.
pub fn global_to_local_address(global_address: usize) -> (r: (usize, usize))
    ensures
        r.0 == global_address / FIELDS_PER_BLOB,
        r.1 == global_address % FIELDS_PER_BLOB,
        r.0 * FIELDS_PER_BLOB + r.1 == global_address,
        r.1 < FIELDS_PER_BLOB,
{
    (global_address / FIELDS_PER_BLOB, global_address % FIELDS_PER_BLOB)
}

/// A deposit's leaf lies in its group, at the deposit's place among the three, and
/// so never where any group keeps its root.
pub proof fn law_deposit_leaf_in_group(deposit_nr: nat, num_deposits: nat, group: nat)
    ensures
        deposit_leaf_address(deposit_nr) == (deposit_nr / 3) * 4 + deposit_nr % 3,
        deposit_leaf_address(deposit_nr) != anchor_address(group, num_deposits, true),
        deposit_nr < num_deposits ==> deposit_leaf_address(deposit_nr) < deposits_length(
            num_deposits,
        ),
{
}

/// Two deposits never share a field.
pub proof fn law_deposit_leaves_apart(a: nat, b: nat)
    requires
        deposit_leaf_address(a) == deposit_leaf_address(b),
    ensures
        a == b,
{
}

/// The fields of a transaction lie after the deposits and before the end of the
/// block; its nullifiers, leaves and root lie among them in that order, and no
/// field of it belongs to another transaction.
pub proof fn law_tx_fields(tx: nat, num_deposits: nat, num_transactions: nat, other: nat)
    requires
        tx < num_transactions,
    ensures
        deposits_length(num_deposits) <= tx_address(tx, num_deposits),
        tx_address(tx, num_deposits) + 15 <= block_length(num_deposits, num_transactions),
        tx_address(tx, num_deposits) < nullifier_address(tx, num_deposits, 0),
        nullifier_address(tx, num_deposits, 1) == nullifier_address(tx, num_deposits, 0) + 1,
        leaf_address(tx, num_deposits, false, 0) == nullifier_address(tx, num_deposits, 1) + 1,
        leaf_address(tx, num_deposits, false, 1) == leaf_address(tx, num_deposits, false, 0) + 1,
        leaf_address(tx, num_deposits, false, 2) == leaf_address(tx, num_deposits, false, 1) + 1,
        anchor_address(tx, num_deposits, false) == leaf_address(tx, num_deposits, false, 2) + 1,
        anchor_address(tx, num_deposits, false) + 1 == tx_address(tx, num_deposits) + 15,
        tx < other ==> tx_address(tx, num_deposits) + 15 <= tx_address(other, num_deposits),
{
}

/// The layout of a block in numbers: groups of four fields for each three deposits or part of
/// three, then fifteen fields for each transaction; the root is the last field of each, the
/// leaves stand right before it, and the nullifiers of a transaction right before these.
pub proof fn law_layout(num_deposits: nat, num_transactions: nat, n: nat, which: nat)
    ensures
        3 * deposit_groups(num_deposits) >= num_deposits,
        3 * deposit_groups(num_deposits) < num_deposits + 3,
        deposits_length(num_deposits) == 4 * deposit_groups(num_deposits),
        block_length(num_deposits, num_transactions) == 4 * deposit_groups(num_deposits) + 15
            * num_transactions,
        tx_address(n, num_deposits) == 4 * deposit_groups(num_deposits) + 15 * n,
        anchor_address(n, num_deposits, true) == 4 * n + 3,
        anchor_address(n, num_deposits, false) == 4 * deposit_groups(num_deposits) + 15 * n + 14,
        deposit_leaf_address(n) == 4 * (n / 3) + n % 3,
        leaf_address(n, num_deposits, true, which) == 4 * (n / 3) + n % 3,
        leaf_address(n, num_deposits, false, which) == 4 * deposit_groups(num_deposits) + 15 * n + 11
            + which,
        nullifier_address(n, num_deposits, which) == 4 * deposit_groups(num_deposits) + 15 * n + 9
            + which,
        n < deposit_groups(num_deposits) ==> root_address(n, num_deposits) == 4 * n + 3,
        root_address(deposit_groups(num_deposits) + n, num_deposits) == 4 * deposit_groups(
            num_deposits,
        ) + 15 * n + 14,
{
}

/// The root after an update stands right before the first field of the next update's part of the
/// block, and the root after the last at the block's end.
pub proof fn law_roots_end_their_updates(update_nr: nat, num_deposits: nat, num_transactions: nat)
    requires
        update_nr < deposit_groups(num_deposits) + num_transactions,
    ensures
        root_address(update_nr, num_deposits) < block_length(num_deposits, num_transactions),
        update_nr + 1 == deposit_groups(num_deposits) + num_transactions ==> root_address(
            update_nr,
            num_deposits,
        ) + 1 == block_length(num_deposits, num_transactions),
        root_address(update_nr, num_deposits) < root_address(update_nr + 1, num_deposits),
{
}

} // verus!
