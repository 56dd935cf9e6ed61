//! The check that no nullifier is used twice.
//!
//! A transaction reveals two nullifiers. One that was used before, in the same block
//! or in an earlier one, is a double spend. Zero is a nullifier like any other.

use crate::blob::{ParsedBlock, ParsedTransaction};
use crate::types::B256;
use crate::validators::{evidence_views, lemma_evidence_push, EvidenceView, FraudEvidence};
use vstd::prelude::*;

verus! {

/// Where a nullifier was used.
#[derive(Clone, Copy, Debug, PartialEq, Eq, Structural)]
pub struct NullifierRecord {
    pub block_nr: u64,
    /// Index of the transaction in the block.
    pub tx_index: u32,
    /// Which of the transaction's two nullifiers it is.
    pub which: u8,
}

/// The uses of nullifiers in a block, in order.
pub open spec fn uses_of(block_nr: u64, transactions: Seq<ParsedTransaction>) -> Seq<
    (B256, NullifierRecord),
> {
    Seq::new(
        2 * transactions.len(),
        |u: int|
            (
                if u % 2 == 0 {
                    transactions[u / 2].nullifier0
                } else {
                    transactions[u / 2].nullifier1
                },
                NullifierRecord { block_nr, tx_index: (u / 2) as u32, which: (u % 2) as u8 },
            ),
    )
}

/// The first record of a nullifier in a list.
pub open spec fn lookup(list: Seq<(B256, NullifierRecord)>, nullifier: B256) -> Option<
    NullifierRecord,
>
    decreases list.len(),
{
    if list.len() == 0 {
        None
    } else {
        match lookup(list.drop_last(), nullifier) {
            Some(record) => Some(record),
            None => if list.last().0 == nullifier {
                Some(list.last().1)
            } else {
                None
            },
        }
    }
}

/// Those of the first `count` uses that are the first of their nullifier.
pub open spec fn first_uses(uses: Seq<(B256, NullifierRecord)>, count: nat) -> Seq<
    (B256, NullifierRecord),
>
    decreases count,
{
    if count == 0 {
        Seq::empty()
    } else {
        let before = first_uses(uses, (count - 1) as nat);
        if lookup(before, uses[count - 1].0) is Some {
            before
        } else {
            before.push(uses[count - 1])
        }
    }
}

/// The evidence that a nullifier is used twice.
pub open spec fn double_spend(
    nullifier: B256,
    first: NullifierRecord,
    second: NullifierRecord,
) -> EvidenceView {
    EvidenceView::NullifierDoubleSpend {
        first_block_nr: first.block_nr,
        second_block_nr: second.block_nr,
        first_tx_number: first.tx_index,
        second_tx_number: second.tx_index,
        first_which: first.which,
        second_which: second.which,
        nullifier,
    }
}

/// The evidence, within the block, against the first `count` uses.
pub open spec fn in_block_frauds(uses: Seq<(B256, NullifierRecord)>, count: nat) -> Seq<
    EvidenceView,
>
    decreases count,
{
    if count == 0 {
        Seq::empty()
    } else {
        let before = in_block_frauds(uses, (count - 1) as nat);
        let (nullifier, second) = uses[count - 1];
        match lookup(first_uses(uses, (count - 1) as nat), nullifier) {
            Some(first) => before.push(double_spend(nullifier, first, second)),
            None => before,
        }
    }
}

/// The evidence, against earlier blocks, against the first `count` of the block's
/// nullifiers.
pub open spec fn cross_block_frauds(
    fresh: Seq<(B256, NullifierRecord)>,
    existing: Seq<(B256, NullifierRecord)>,
    count: nat,
) -> Seq<EvidenceView>
    decreases count,
{
    if count == 0 {
        Seq::empty()
    } else {
        let before = cross_block_frauds(fresh, existing, (count - 1) as nat);
        let (nullifier, second) = fresh[count - 1];
        match lookup(existing, nullifier) {
            Some(first) => before.push(double_spend(nullifier, first, second)),
            None => before,
        }
    }
}

/// Those of the first `count` of the block's nullifiers that no earlier block uses.
pub open spec fn new_uses(
    fresh: Seq<(B256, NullifierRecord)>,
    existing: Seq<(B256, NullifierRecord)>,
    count: nat,
) -> Seq<(B256, NullifierRecord)>
    decreases count,
{
    if count == 0 {
        Seq::empty()
    } else {
        let before = new_uses(fresh, existing, (count - 1) as nat);
        if lookup(existing, fresh[count - 1].0) is Some {
            before
        } else {
            before.push(fresh[count - 1])
        }
    }
}

/// All evidence against the nullifiers of a block.
pub open spec fn nullifier_frauds(
    uses: Seq<(B256, NullifierRecord)>,
    existing: Seq<(B256, NullifierRecord)>,
) -> Seq<EvidenceView> {
    let fresh = first_uses(uses, uses.len());
    in_block_frauds(uses, uses.len()) + cross_block_frauds(fresh, existing, fresh.len())
}

/// What is to be recorded of a block: its nullifiers that no earlier block uses.
pub open spec fn recorded_uses(
    uses: Seq<(B256, NullifierRecord)>,
    existing: Seq<(B256, NullifierRecord)>,
) -> Seq<(B256, NullifierRecord)> {
    let fresh = first_uses(uses, uses.len());
    new_uses(fresh, existing, fresh.len())
}

/// The first record of a nullifier in a list.
fn find(list: &[(B256, NullifierRecord)], nullifier: &B256) -> (r: Option<NullifierRecord>)
    ensures
        r == lookup(list@, *nullifier),
{
    let mut i: usize = 0;
    while i < list.len()
        invariant
            i <= list@.len(),
            lookup(list@.take(i as int), *nullifier) is None,
        decreases list@.len() - i,
    {
        let (other, record) = list[i];
        proof {
            assert(list@.take(i + 1).drop_last() =~= list@.take(i as int));
        }
        if other == *nullifier {
            proof {
                lemma_lookup_stays(list@, i + 1, *nullifier);
            }
            return Some(record);
        }
        i += 1;
    }
    assert(list@.take(i as int) =~= list@);
    None
}

/// A record that is found in the front of a list is the one found in the whole of it.
proof fn lemma_lookup_stays(list: Seq<(B256, NullifierRecord)>, front: int, nullifier: B256)
    requires
        0 <= front <= list.len(),
        lookup(list.take(front), nullifier) is Some,
    ensures
        lookup(list, nullifier) == lookup(list.take(front), nullifier),
    decreases list.len() - front,
{
    if front < list.len() {
        assert(list.take(front + 1).drop_last() =~= list.take(front));
        lemma_lookup_stays(list, front + 1, nullifier);
    } else {
        assert(list.take(front) =~= list);
    }
}

/// What a block's nullifiers amount to within the block.
pub struct BlockNullifiers {
    /// Evidence of nullifiers used twice in the block.
    pub fraud: Vec<FraudEvidence>,
    /// The first use of each nullifier, to be looked up among earlier blocks.
    pub first_uses: Vec<(B256, NullifierRecord)>,
}

/// What a block's nullifiers amount to.
pub struct NullifierOutcome {
    /// Evidence of nullifiers used twice.
    pub fraud: Vec<FraudEvidence>,
    /// Nullifiers that were not used before, to be recorded.
    pub new_nullifiers: Vec<(B256, NullifierRecord)>,
}

/// Checks the nullifiers of blocks against each other and against those recorded.
#[derive(Clone, Copy, Debug)]
pub struct NullifierValidator {}

impl NullifierValidator {
    /// A validator of nullifiers.
    pub fn new() -> NullifierValidator {
        NullifierValidator {  }
    }

    /// Checks the nullifiers of a block against each other. What is left is to be looked
    /// up among the recorded nullifiers.
    pub fn collect_nullifiers(&self, block_nr: u64, block: &ParsedBlock) -> (r: BlockNullifiers)
        ensures
            ({
                let uses = uses_of(block_nr, block@.transactions);
                &&& evidence_views(r.fraud@) == in_block_frauds(uses, uses.len())
                &&& r.first_uses@ == first_uses(uses, uses.len())
            }),
    {
        let ghost uses = uses_of(block_nr, block@.transactions);
        let mut fraud: Vec<FraudEvidence> = Vec::new();
        let mut seen: Vec<(B256, NullifierRecord)> = Vec::new();
        let mut t: usize = 0;
        assert(evidence_views(fraud@) =~= in_block_frauds(uses, 0));
        while t < block.transactions.len()
            invariant
                t <= block@.transactions.len(),
                uses == uses_of(block_nr, block@.transactions),
                evidence_views(fraud@) == in_block_frauds(uses, 2 * t as nat),
                seen@ == first_uses(uses, 2 * t as nat),
            decreases block@.transactions.len() - t,
        {
            let tx = block.transactions[t];
            let first = NullifierRecord { block_nr, tx_index: t as u32, which: 0 };
            let second = NullifierRecord { block_nr, tx_index: t as u32, which: 1 };
            assert(uses[2 * t as int] == (tx.nullifier0, first));
            assert(uses[2 * t as int + 1] == (tx.nullifier1, second));
            self.note_use(tx.nullifier0, first, &mut seen, &mut fraud);
            self.note_use(tx.nullifier1, second, &mut seen, &mut fraud);
            proof {
                reveal_with_fuel(in_block_frauds, 3);
                reveal_with_fuel(first_uses, 3);
            }
            t += 1;
        }
        BlockNullifiers { fraud, first_uses: seen }
    }

    /// Holds one use against those seen before.
    fn note_use(
        &self,
        nullifier: B256,
        record: NullifierRecord,
        seen: &mut Vec<(B256, NullifierRecord)>,
        fraud: &mut Vec<FraudEvidence>,
    )
        ensures
            lookup(old(seen)@, nullifier) is None ==> final(seen)@ == old(seen)@.push(
                (nullifier, record),
            ) && final(fraud)@ == old(fraud)@,
            lookup(old(seen)@, nullifier) matches Some(first) ==> final(seen)@ == old(seen)@
                && evidence_views(final(fraud)@) == evidence_views(old(fraud)@).push(
                double_spend(nullifier, first, record),
            ),
    {
        match find(seen.as_slice(), &nullifier) {
            Some(first) => {
                let evidence = FraudEvidence::NullifierDoubleSpend {
                    first_block_nr: first.block_nr,
                    second_block_nr: record.block_nr,
                    first_tx_number: first.tx_index,
                    second_tx_number: record.tx_index,
                    first_which: first.which,
                    second_which: record.which,
                    nullifier,
                };
                proof {
                    lemma_evidence_push(fraud@, evidence);
                }
                fraud.push(evidence);
            },
            None => {
                seen.push((nullifier, record));
            },
        }
    }

    /// Checks the nullifiers of a block, `existing` being what is recorded of them.
    pub fn process_block(
        &self,
        existing: &[(B256, NullifierRecord)],
        block_nr: u64,
        block: &ParsedBlock,
    ) -> (r: NullifierOutcome)
        ensures
            evidence_views(r.fraud@) == nullifier_frauds(
                uses_of(block_nr, block@.transactions),
                existing@,
            ),
            r.new_nullifiers@ == recorded_uses(
                uses_of(block_nr, block@.transactions),
                existing@,
            ),
    {
        let ghost uses = uses_of(block_nr, block@.transactions);
        let collected = self.collect_nullifiers(block_nr, block);
        let fresh = collected.first_uses;
        let mut fraud = collected.fraud;
        let mut new_nullifiers: Vec<(B256, NullifierRecord)> = Vec::new();
        let ghost in_block = in_block_frauds(uses, uses.len());
        let mut i: usize = 0;
        assert(evidence_views(fraud@) =~= in_block + cross_block_frauds(fresh@, existing@, 0));
        while i < fresh.len()
            invariant
                i <= fresh@.len(),
                evidence_views(fraud@) == in_block + cross_block_frauds(
                    fresh@,
                    existing@,
                    i as nat,
                ),
                new_nullifiers@ == new_uses(fresh@, existing@, i as nat),
            decreases fresh@.len() - i,
        {
            let (nullifier, record) = fresh[i];
            match find(existing, &nullifier) {
                Some(first) => {
                    let evidence = FraudEvidence::NullifierDoubleSpend {
                        first_block_nr: first.block_nr,
                        second_block_nr: record.block_nr,
                        first_tx_number: first.tx_index,
                        second_tx_number: record.tx_index,
                        first_which: first.which,
                        second_which: record.which,
                        nullifier,
                    };
                    proof {
                        lemma_evidence_push(fraud@, evidence);
                        let before = cross_block_frauds(fresh@, existing@, i as nat);
                        assert((in_block + before).push(evidence@) =~= in_block + before.push(
                            evidence@,
                        ));
                    }
                    fraud.push(evidence);
                },
                None => {
                    new_nullifiers.push((nullifier, record));
                },
            }
            i += 1;
        }
        NullifierOutcome { fraud, new_nullifiers }
    }
}

impl Default for NullifierValidator {
    fn default() -> Self {
        Self::new()
    }
}

/// A list has a record of a nullifier exactly where the nullifier is in it.
proof fn lemma_lookup_some(list: Seq<(B256, NullifierRecord)>, nullifier: B256)
    ensures
        lookup(list, nullifier) is Some <==> exists|i: int|
            0 <= i < list.len() && (#[trigger] list[i]).0 == nullifier,
    decreases list.len(),
{
    if list.len() > 0 {
        let front = list.drop_last();
        lemma_lookup_some(front, nullifier);
        if lookup(front, nullifier) is Some {
            let i = choose|i: int| 0 <= i < front.len() && (#[trigger] front[i]).0 == nullifier;
            assert(list[i].0 == nullifier);
        }
        if exists|i: int| 0 <= i < list.len() && (#[trigger] list[i]).0 == nullifier {
            let i = choose|i: int| 0 <= i < list.len() && (#[trigger] list[i]).0 == nullifier;
            if i < front.len() {
                assert(front[i].0 == nullifier);
            }
        }
        assert(list[list.len() - 1] == list.last());
    }
}

/// The first uses hold exactly the nullifiers that are used, each once.
proof fn lemma_first_uses(uses: Seq<(B256, NullifierRecord)>, count: nat)
    requires
        count <= uses.len(),
    ensures
        forall|n: B256| #[trigger]
            lookup(first_uses(uses, count), n) is Some <==> exists|i: int|
                0 <= i < count && (#[trigger] uses[i]).0 == n,
        forall|i: int, j: int|
            0 <= i < j < first_uses(uses, count).len() ==> (#[trigger] first_uses(uses, count)[i]).0
                != (#[trigger] first_uses(uses, count)[j]).0,
    decreases count,
{
    if count > 0 {
        let prev = (count - 1) as nat;
        lemma_first_uses(uses, prev);
        let before = first_uses(uses, prev);
        let after = first_uses(uses, count);
        let last = uses[count - 1];
        assert forall|n: B256| #[trigger] lookup(after, n) is Some <==> exists|i: int|
            0 <= i < count && (#[trigger] uses[i]).0 == n by {
            if lookup(before, last.0) is None {
                assert(after.drop_last() =~= before);
            }
            if n == last.0 {
                assert(uses[count - 1].0 == n);
            }
            if lookup(before, n) is Some {
                let i = choose|i: int| 0 <= i < prev && (#[trigger] uses[i]).0 == n;
                assert(uses[i].0 == n);
            }
        }
        assert forall|i: int, j: int| 0 <= i < j < after.len() implies (#[trigger] after[i]).0 != (
        #[trigger] after[j]).0 by {
            if lookup(before, last.0) is None && j == before.len() {
                lemma_lookup_some(before, last.0);
                assert(before[i].0 != last.0);
            }
        }
    }
}

/// Evidence within the block is missing exactly where no nullifier comes twice.
proof fn lemma_no_in_block_fraud(uses: Seq<(B256, NullifierRecord)>, count: nat)
    requires
        count <= uses.len(),
    ensures
        in_block_frauds(uses, count).len() == 0 <==> forall|i: int, j: int|
            0 <= i < j < count ==> (#[trigger] uses[i]).0 != (#[trigger] uses[j]).0,
        in_block_frauds(uses, count).len() == 0 ==> first_uses(uses, count) == uses.take(
            count as int,
        ),
    decreases count,
{
    if count > 0 {
        let prev = (count - 1) as nat;
        lemma_no_in_block_fraud(uses, prev);
        lemma_first_uses(uses, prev);
        let last = uses[count - 1];
        let seen = lookup(first_uses(uses, prev), last.0) is Some;
        if seen {
            let i = choose|i: int| 0 <= i < prev && (#[trigger] uses[i]).0 == last.0;
            assert(uses[i].0 == uses[count - 1].0);
        } else if in_block_frauds(uses, count).len() == 0 {
            assert(first_uses(uses, count) =~= uses.take(count as int));
            assert forall|i: int, j: int| 0 <= i < j < count implies (#[trigger] uses[i]).0 != (
            #[trigger] uses[j]).0 by {
                if j == count - 1 && uses[i].0 == uses[j].0 {
                    assert(lookup(first_uses(uses, prev), last.0) is Some);
                }
            }
        }
    } else {
        assert(first_uses(uses, 0) =~= uses.take(0));
    }
}

/// Evidence against earlier blocks is missing exactly where none of the nullifiers is
/// recorded.
proof fn lemma_no_cross_block_fraud(
    fresh: Seq<(B256, NullifierRecord)>,
    existing: Seq<(B256, NullifierRecord)>,
    count: nat,
)
    requires
        count <= fresh.len(),
    ensures
        cross_block_frauds(fresh, existing, count).len() == 0 <==> forall|i: int|
            0 <= i < count ==> lookup(existing, (#[trigger] fresh[i]).0) is None,
    decreases count,
{
    if count > 0 {
        lemma_no_cross_block_fraud(fresh, existing, (count - 1) as nat);
        assert(fresh[count - 1] == fresh[count - 1]);
    }
}

/// A block draws no evidence exactly where its nullifiers are all different and none is
/// recorded of an earlier block.
pub proof fn law_no_evidence_iff_unspent(
    uses: Seq<(B256, NullifierRecord)>,
    existing: Seq<(B256, NullifierRecord)>,
)
    ensures
        nullifier_frauds(uses, existing).len() == 0 <==> {
            &&& forall|i: int, j: int|
                0 <= i < j < uses.len() ==> (#[trigger] uses[i]).0 != (#[trigger] uses[j]).0
            &&& forall|i: int|
                0 <= i < uses.len() ==> lookup(existing, (#[trigger] uses[i]).0) is None
        },
{
    let fresh = first_uses(uses, uses.len());
    lemma_no_in_block_fraud(uses, uses.len());
    lemma_no_cross_block_fraud(fresh, existing, fresh.len());
    assert(uses.take(uses.len() as int) =~= uses);
}

/// What is recorded of a block is new, and no nullifier comes twice in it.
pub proof fn law_recorded_once(
    uses: Seq<(B256, NullifierRecord)>,
    existing: Seq<(B256, NullifierRecord)>,
)
    ensures
        forall|i: int|
            0 <= i < recorded_uses(uses, existing).len() ==> lookup(
                existing,
                (#[trigger] recorded_uses(uses, existing)[i]).0,
            ) is None,
        forall|i: int, j: int|
            0 <= i < j < recorded_uses(uses, existing).len() ==> (#[trigger] recorded_uses(
                uses,
                existing,
            )[i]).0 != (#[trigger] recorded_uses(uses, existing)[j]).0,
{
    let fresh = first_uses(uses, uses.len());
    lemma_first_uses(uses, uses.len());
    lemma_new_uses(fresh, existing, fresh.len());
}

/// After a block was processed, every nullifier that it uses is on record: it was before,
/// or it is recorded now.
pub proof fn law_every_use_on_record(
    uses: Seq<(B256, NullifierRecord)>,
    existing: Seq<(B256, NullifierRecord)>,
    i: int,
)
    requires
        0 <= i < uses.len(),
    ensures
        lookup(existing, uses[i].0) is Some || lookup(recorded_uses(uses, existing), uses[i].0) is Some,
{
    let n = uses[i].0;
    let fresh = first_uses(uses, uses.len());
    lemma_first_uses(uses, uses.len());
    assert(lookup(fresh, n) is Some);
    lemma_lookup_some(fresh, n);
    let j = choose|j: int| 0 <= j < fresh.len() && (#[trigger] fresh[j]).0 == n;
    lemma_new_uses(fresh, existing, fresh.len());
    lemma_lookup_some(recorded_uses(uses, existing), n);
}

/// What is left of a block's nullifiers is what is not recorded, in order.
proof fn lemma_new_uses(
    fresh: Seq<(B256, NullifierRecord)>,
    existing: Seq<(B256, NullifierRecord)>,
    count: nat,
)
    requires
        count <= fresh.len(),
        forall|i: int, j: int|
            0 <= i < j < fresh.len() ==> (#[trigger] fresh[i]).0 != (#[trigger] fresh[j]).0,
    ensures
        forall|i: int|
            0 <= i < new_uses(fresh, existing, count).len() ==> lookup(
                existing,
                (#[trigger] new_uses(fresh, existing, count)[i]).0,
            ) is None && exists|k: int|
                0 <= k < count && #[trigger] fresh[k] == new_uses(fresh, existing, count)[i],
        forall|i: int, j: int|
            0 <= i < j < new_uses(fresh, existing, count).len() ==> (#[trigger] new_uses(
                fresh,
                existing,
                count,
            )[i]).0 != (#[trigger] new_uses(fresh, existing, count)[j]).0,
        forall|k: int|
            0 <= k < count && lookup(existing, (#[trigger] fresh[k]).0) is None ==> exists|i: int|
                0 <= i < new_uses(fresh, existing, count).len() && (#[trigger] new_uses(
                    fresh,
                    existing,
                    count,
                )[i]).0 == fresh[k].0,
    decreases count,
{
    if count > 0 {
        let prev = (count - 1) as nat;
        lemma_new_uses(fresh, existing, prev);
        let before = new_uses(fresh, existing, prev);
        let after = new_uses(fresh, existing, count);
        assert forall|i: int| 0 <= i < after.len() implies lookup(
            existing,
            (#[trigger] after[i]).0,
        ) is None && exists|k: int| 0 <= k < count && #[trigger] fresh[k] == after[i] by {
            if i < before.len() {
                assert(after[i] == before[i]);
            } else {
                assert(after[i] == fresh[count - 1]);
            }
        }
        assert forall|i: int, j: int| 0 <= i < j < after.len() implies (#[trigger] after[i]).0 != (
        #[trigger] after[j]).0 by {
            assert(after[i] == before[i]);
            if j < before.len() {
                assert(after[j] == before[j]);
            } else {
                let k = choose|k: int| 0 <= k < prev && #[trigger] fresh[k] == before[i];
                assert(fresh[k].0 != fresh[count - 1].0);
            }
        }
        assert forall|k: int|
            0 <= k < count && lookup(existing, (#[trigger] fresh[k]).0) is None implies exists|i: int|
            0 <= i < after.len() && (#[trigger] after[i]).0 == fresh[k].0 by {
            if k < prev {
                let i = choose|i: int| 0 <= i < before.len() && (#[trigger] before[i]).0
                    == fresh[k].0;
                assert(after[i] == before[i]);
            } else {
                assert(after[after.len() - 1] == fresh[k]);
            }
        }
    }
}

/// A nullifier that one block uses and another uses later is reported there, whatever
/// comes in between: it is on record after the first, and evidence names it in the
/// second, where it is new to that block.
pub proof fn law_later_use_is_reported(
    uses: Seq<(B256, NullifierRecord)>,
    existing: Seq<(B256, NullifierRecord)>,
    i: int,
)
    requires
        0 <= i < uses.len(),
        lookup(existing, uses[i].0) is Some,
    ensures
        exists|k: int|
            0 <= k < nullifier_frauds(uses, existing).len() && (#[trigger] nullifier_frauds(
                uses,
                existing,
            )[k] matches EvidenceView::NullifierDoubleSpend { nullifier, first_block_nr, .. }
                && nullifier == uses[i].0 && first_block_nr == lookup(
                existing,
                uses[i].0,
            )->0.block_nr),
{
    let n = uses[i].0;
    let fresh = first_uses(uses, uses.len());
    lemma_first_uses(uses, uses.len());
    assert(lookup(fresh, n) is Some);
    lemma_lookup_some(fresh, n);
    let j = choose|j: int| 0 <= j < fresh.len() && (#[trigger] fresh[j]).0 == n;
    lemma_cross_block_reported(fresh, existing, fresh.len(), j);
    let cross = cross_block_frauds(fresh, existing, fresh.len());
    let k = choose|k: int|
        0 <= k < cross.len() && (#[trigger] cross[k] matches EvidenceView::NullifierDoubleSpend {
            nullifier,
            first_block_nr,
            ..
        } && nullifier == n && first_block_nr == lookup(existing, n)->0.block_nr);
    let all = nullifier_frauds(uses, existing);
    assert(all[in_block_frauds(uses, uses.len()).len() + k] == cross[k]);
}

/// Each of a block's nullifiers that is recorded draws evidence.
proof fn lemma_cross_block_reported(
    fresh: Seq<(B256, NullifierRecord)>,
    existing: Seq<(B256, NullifierRecord)>,
    count: nat,
    j: int,
)
    requires
        0 <= j < count <= fresh.len(),
        lookup(existing, fresh[j].0) is Some,
    ensures
        exists|k: int|
            0 <= k < cross_block_frauds(fresh, existing, count).len() && (
            #[trigger] cross_block_frauds(
                fresh,
                existing,
                count,
            )[k] matches EvidenceView::NullifierDoubleSpend { nullifier, first_block_nr, .. }
                && nullifier == fresh[j].0 && first_block_nr == lookup(
                existing,
                fresh[j].0,
            )->0.block_nr),
    decreases count,
{
    let after = cross_block_frauds(fresh, existing, count);
    let before = cross_block_frauds(fresh, existing, (count - 1) as nat);
    if j < count - 1 {
        lemma_cross_block_reported(fresh, existing, (count - 1) as nat, j);
        let k = choose|k: int|
            0 <= k < before.len() && (
            #[trigger] before[k] matches EvidenceView::NullifierDoubleSpend {
                nullifier,
                first_block_nr,
                ..
            } && nullifier == fresh[j].0 && first_block_nr == lookup(
                existing,
                fresh[j].0,
            )->0.block_nr);
        assert(after[k] == before[k]);
    } else {
        assert(after[after.len() - 1] == double_spend(
            fresh[j].0,
            lookup(existing, fresh[j].0)->0,
            fresh[j].1,
        ));
    }
}

/// The nullifier that a block reveals at a place, each of its transactions revealing two.
pub open spec fn revealed(transactions: Seq<ParsedTransaction>, u: int) -> B256 {
    if u % 2 == 0 {
        transactions[u / 2].nullifier0
    } else {
        transactions[u / 2].nullifier1
    }
}

/// Whether no place before reveals the same nullifier.
pub open spec fn revealed_first(transactions: Seq<ParsedTransaction>, u: int) -> bool {
    forall|v: int|
        0 <= v < u ==> #[trigger] revealed(transactions, v) != revealed(transactions, u)
}

/// The record that is found of a nullifier is the first of it.
proof fn lemma_lookup_first(list: Seq<(B256, NullifierRecord)>, nullifier: B256, e: int)
    requires
        0 <= e < list.len(),
        list[e].0 == nullifier,
        forall|i: int| 0 <= i < e ==> (#[trigger] list[i]).0 != nullifier,
    ensures
        lookup(list, nullifier) == Some(list[e].1),
    decreases list.len(),
{
    let front = list.drop_last();
    if e < front.len() {
        lemma_lookup_first(front, nullifier, e);
    } else {
        lemma_lookup_some(front, nullifier);
        if lookup(front, nullifier) is Some {
            let i = choose|i: int| 0 <= i < front.len() && (#[trigger] front[i]).0 == nullifier;
            assert(list[i].0 != nullifier);
        }
    }
}

/// A nullifier's first use is kept among the first uses, and is found there.
proof fn lemma_first_use_kept(uses: Seq<(B256, NullifierRecord)>, count: nat, u: int) -> (j: int)
    requires
        0 <= u < count <= uses.len(),
        forall|v: int| 0 <= v < u ==> (#[trigger] uses[v]).0 != uses[u].0,
    ensures
        0 <= j < first_uses(uses, count).len(),
        first_uses(uses, count)[j] == uses[u],
        lookup(first_uses(uses, count), uses[u].0) == Some(uses[u].1),
    decreases count,
{
    let prev = (count - 1) as nat;
    let before = first_uses(uses, prev);
    let after = first_uses(uses, count);
    lemma_first_uses(uses, prev);
    if u < prev {
        let j = lemma_first_use_kept(uses, prev, u);
        if after.len() > before.len() {
            assert(after.drop_last() =~= before);
        }
        j
    } else {
        if lookup(before, uses[u].0) is Some {
            let v = choose|v: int| 0 <= v < prev && (#[trigger] uses[v]).0 == uses[u].0;
            assert(uses[v].0 != uses[u].0);
        }
        assert(after.drop_last() =~= before);
        before.len() as int
    }
}

/// Each of the first uses is a use that no earlier one shares its nullifier with.
proof fn lemma_first_use_of(uses: Seq<(B256, NullifierRecord)>, count: nat, j: int) -> (u: int)
    requires
        count <= uses.len(),
        0 <= j < first_uses(uses, count).len(),
    ensures
        0 <= u < count,
        first_uses(uses, count)[j] == uses[u],
        forall|v: int| 0 <= v < u ==> (#[trigger] uses[v]).0 != uses[u].0,
    decreases count,
{
    let prev = (count - 1) as nat;
    let before = first_uses(uses, prev);
    lemma_first_uses(uses, prev);
    if j < before.len() {
        lemma_first_use_of(uses, prev, j)
    } else {
        let u = count - 1;
        assert forall|v: int| 0 <= v < u implies (#[trigger] uses[v]).0 != uses[u].0 by {
            if uses[v].0 == uses[u].0 {
                assert(lookup(before, uses[u].0) is Some);
            }
        }
        u
    }
}

/// Every use that is found among earlier ones in the block draws evidence.
proof fn lemma_in_block_fraud_at(uses: Seq<(B256, NullifierRecord)>, count: nat, u: int, w: int) -> (j:
    int)
    requires
        0 <= u < w < count,
        count <= uses.len(),
        uses[u].0 == uses[w].0,
        forall|v: int| 0 <= v < u ==> (#[trigger] uses[v]).0 != uses[u].0,
    ensures
        0 <= j < in_block_frauds(uses, count).len(),
        in_block_frauds(uses, count)[j] == double_spend(uses[u].0, uses[u].1, uses[w].1),
    decreases count,
{
    let before = in_block_frauds(uses, (count - 1) as nat);
    if w < count - 1 {
        lemma_in_block_fraud_at(uses, (count - 1) as nat, u, w)
    } else {
        lemma_first_use_kept(uses, (count - 1) as nat, u);
        before.len() as int
    }
}

/// Which uses the evidence at a place is about.
proof fn lemma_in_block_fraud_of(uses: Seq<(B256, NullifierRecord)>, count: nat, j: int) -> (r: (
    int,
    int,
))
    requires
        count <= uses.len(),
        0 <= j < in_block_frauds(uses, count).len(),
    ensures
        0 <= r.0 < r.1 < count,
        uses[r.0].0 == uses[r.1].0,
        forall|v: int| 0 <= v < r.0 ==> (#[trigger] uses[v]).0 != uses[r.0].0,
        in_block_frauds(uses, count)[j] == double_spend(uses[r.0].0, uses[r.0].1, uses[r.1].1),
    decreases count,
{
    let prev = (count - 1) as nat;
    let before = in_block_frauds(uses, prev);
    if j < before.len() {
        lemma_in_block_fraud_of(uses, prev, j)
    } else {
        let w = count - 1;
        lemma_first_uses(uses, prev);
        let u = lemma_earliest(uses, prev, uses[w].0);
        lemma_first_use_kept(uses, prev, u);
        (u, w)
    }
}

/// A nullifier that is used has a first use.
proof fn lemma_earliest(uses: Seq<(B256, NullifierRecord)>, count: nat, nullifier: B256) -> (u: int)
    requires
        count <= uses.len(),
        exists|i: int| 0 <= i < count && (#[trigger] uses[i]).0 == nullifier,
    ensures
        0 <= u < count,
        uses[u].0 == nullifier,
        forall|v: int| 0 <= v < u ==> (#[trigger] uses[v]).0 != nullifier,
    decreases count,
{
    let prev = (count - 1) as nat;
    if exists|i: int| 0 <= i < prev && (#[trigger] uses[i]).0 == nullifier {
        lemma_earliest(uses, prev, nullifier)
    } else {
        let i = choose|i: int| 0 <= i < count && (#[trigger] uses[i]).0 == nullifier;
        assert(i == prev);
        assert forall|v: int| 0 <= v < i implies (#[trigger] uses[v]).0 != nullifier by {
            assert(v < prev);
        }
        i
    }
}

/// Where the evidence of a recorded nullifier stands.
proof fn lemma_cross_block_fraud_at(
    fresh: Seq<(B256, NullifierRecord)>,
    existing: Seq<(B256, NullifierRecord)>,
    count: nat,
    i: int,
) -> (j: int)
    requires
        0 <= i < count <= fresh.len(),
        lookup(existing, fresh[i].0) is Some,
    ensures
        0 <= j < cross_block_frauds(fresh, existing, count).len(),
        cross_block_frauds(fresh, existing, count)[j] == double_spend(
            fresh[i].0,
            lookup(existing, fresh[i].0)->0,
            fresh[i].1,
        ),
    decreases count,
{
    let before = cross_block_frauds(fresh, existing, (count - 1) as nat);
    if i < count - 1 {
        lemma_cross_block_fraud_at(fresh, existing, (count - 1) as nat, i)
    } else {
        before.len() as int
    }
}

/// Which use the evidence of a recorded nullifier is about.
proof fn lemma_cross_block_fraud_of(
    fresh: Seq<(B256, NullifierRecord)>,
    existing: Seq<(B256, NullifierRecord)>,
    count: nat,
    j: int,
) -> (i: int)
    requires
        count <= fresh.len(),
        0 <= j < cross_block_frauds(fresh, existing, count).len(),
    ensures
        0 <= i < count,
        lookup(existing, fresh[i].0) is Some,
        cross_block_frauds(fresh, existing, count)[j] == double_spend(
            fresh[i].0,
            lookup(existing, fresh[i].0)->0,
            fresh[i].1,
        ),
    decreases count,
{
    let before = cross_block_frauds(fresh, existing, (count - 1) as nat);
    if j < before.len() {
        lemma_cross_block_fraud_of(fresh, existing, (count - 1) as nat, j)
    } else {
        count - 1
    }
}

/// What is said of the uses of a block is said of what its transactions reveal.
proof fn lemma_uses_are_revealed(block_nr: u64, transactions: Seq<ParsedTransaction>)
    ensures
        uses_of(block_nr, transactions).len() == 2 * transactions.len(),
        forall|u: int|
            0 <= u < 2 * transactions.len() ==> (#[trigger] uses_of(block_nr, transactions)[u]).0
                == revealed(transactions, u) && uses_of(block_nr, transactions)[u].1 == (
            NullifierRecord { block_nr, tx_index: (u / 2) as u32, which: (u % 2) as u8 }),
{
}

/// A nullifier that a block reveals twice is reported with each further place where it is
/// revealed, against the first: the evidence names both transactions, which of their two
/// nullifiers it is, and the nullifier. Nothing but the two places has to be so.
pub proof fn law_reuse_in_block_is_reported(
    block_nr: u64,
    transactions: Seq<ParsedTransaction>,
    existing: Seq<(B256, NullifierRecord)>,
    u: int,
    w: int,
)
    requires
        0 <= u < w < 2 * transactions.len(),
        revealed(transactions, u) == revealed(transactions, w),
        revealed_first(transactions, u),
    ensures
        nullifier_frauds(uses_of(block_nr, transactions), existing).contains(
            EvidenceView::NullifierDoubleSpend {
                first_block_nr: block_nr,
                second_block_nr: block_nr,
                first_tx_number: (u / 2) as u32,
                second_tx_number: (w / 2) as u32,
                first_which: (u % 2) as u8,
                second_which: (w % 2) as u8,
                nullifier: revealed(transactions, w),
            },
        ),
{
    let uses = uses_of(block_nr, transactions);
    lemma_uses_are_revealed(block_nr, transactions);
    assert(uses[u].0 == revealed(transactions, u) && uses[w].0 == revealed(transactions, w));
    assert forall|v: int| 0 <= v < u implies (#[trigger] uses[v]).0 != uses[u].0 by {
        assert(revealed(transactions, v) != revealed(transactions, u));
    }
    let j = lemma_in_block_fraud_at(uses, uses.len(), u, w);
    assert(nullifier_frauds(uses, existing)[j] == in_block_frauds(uses, uses.len())[j]);
}

/// A nullifier that is on record and that a block reveals is reported, against the first record
/// of it: the evidence names the recorded place and the first place in the block.
pub proof fn law_reuse_of_recorded_is_reported(
    block_nr: u64,
    transactions: Seq<ParsedTransaction>,
    existing: Seq<(B256, NullifierRecord)>,
    u: int,
    e: int,
)
    requires
        0 <= u < 2 * transactions.len(),
        revealed_first(transactions, u),
        0 <= e < existing.len(),
        existing[e].0 == revealed(transactions, u),
        forall|i: int| 0 <= i < e ==> (#[trigger] existing[i]).0 != existing[e].0,
    ensures
        nullifier_frauds(uses_of(block_nr, transactions), existing).contains(
            EvidenceView::NullifierDoubleSpend {
                first_block_nr: existing[e].1.block_nr,
                second_block_nr: block_nr,
                first_tx_number: existing[e].1.tx_index,
                second_tx_number: (u / 2) as u32,
                first_which: existing[e].1.which,
                second_which: (u % 2) as u8,
                nullifier: revealed(transactions, u),
            },
        ),
        forall|i: int|
            0 <= i < recorded_uses(uses_of(block_nr, transactions), existing).len() ==> (
            #[trigger] recorded_uses(uses_of(block_nr, transactions), existing)[i]).0 != revealed(
                transactions,
                u,
            ),
{
    let uses = uses_of(block_nr, transactions);
    let fresh = first_uses(uses, uses.len());
    lemma_uses_are_revealed(block_nr, transactions);
    assert(uses[u].0 == revealed(transactions, u));
    assert forall|v: int| 0 <= v < u implies (#[trigger] uses[v]).0 != uses[u].0 by {
        assert(revealed(transactions, v) != revealed(transactions, u));
    }
    let i = lemma_first_use_kept(uses, uses.len(), u);
    lemma_lookup_first(existing, uses[u].0, e);
    let j = lemma_cross_block_fraud_at(fresh, existing, fresh.len(), i);
    assert(nullifier_frauds(uses, existing)[in_block_frauds(uses, uses.len()).len() + j]
        == cross_block_frauds(fresh, existing, fresh.len())[j]);
    law_recorded_once(uses, existing);
}

/// Evidence of a nullifier that is used twice is true: the block reveals it at the second place
/// that is named, and the first place is an earlier one of the block, or one on record.
pub proof fn law_double_spend_evidence_is_true(
    block_nr: u64,
    transactions: Seq<ParsedTransaction>,
    existing: Seq<(B256, NullifierRecord)>,
    j: int,
) -> (w: int)
    requires
        0 <= j < nullifier_frauds(uses_of(block_nr, transactions), existing).len(),
    ensures
        0 <= w < 2 * transactions.len(),
        nullifier_frauds(uses_of(block_nr, transactions), existing)[j] matches
            EvidenceView::NullifierDoubleSpend {
            first_block_nr,
            second_block_nr,
            first_tx_number,
            second_tx_number,
            first_which,
            second_which,
            nullifier,
        } && {
            &&& nullifier == revealed(transactions, w)
            &&& second_block_nr == block_nr
            &&& second_tx_number == (w / 2) as u32
            &&& second_which == (w % 2) as u8
            &&& (exists|u: int|
                0 <= u < w && #[trigger] revealed(transactions, u) == nullifier && first_block_nr
                    == block_nr && first_tx_number == (u / 2) as u32 && first_which == (u % 2) as u8)
                || (exists|e: int|
                0 <= e < existing.len() && (#[trigger] existing[e]).0 == nullifier
                    && existing[e].1.block_nr == first_block_nr && existing[e].1.tx_index
                    == first_tx_number && existing[e].1.which == first_which)
        },
{
    let uses = uses_of(block_nr, transactions);
    let fresh = first_uses(uses, uses.len());
    let in_block = in_block_frauds(uses, uses.len());
    lemma_uses_are_revealed(block_nr, transactions);
    if j < in_block.len() {
        let (u, w) = lemma_in_block_fraud_of(uses, uses.len(), j);
        assert(nullifier_frauds(uses, existing)[j] == in_block[j]);
        assert(uses[u].0 == revealed(transactions, u));
        assert(uses[w].0 == revealed(transactions, w));
        w
    } else {
        let i = lemma_cross_block_fraud_of(fresh, existing, fresh.len(), j - in_block.len());
        let w = lemma_first_use_of(uses, uses.len(), i);
        assert(uses[w].0 == revealed(transactions, w));
        lemma_lookup_some(existing, uses[w].0);
        let e = lemma_earliest(existing, existing.len(), uses[w].0);
        lemma_lookup_first(existing, uses[w].0, e);
        assert(existing[e].0 == uses[w].0);
        w
    }
}

/// A block draws no evidence exactly where the words that its transactions reveal are all
/// different and none of them is on record.
pub proof fn law_no_evidence_iff_nullifiers_are_new(
    block_nr: u64,
    transactions: Seq<ParsedTransaction>,
    existing: Seq<(B256, NullifierRecord)>,
)
    ensures
        nullifier_frauds(uses_of(block_nr, transactions), existing).len() == 0 <==> {
            &&& forall|u: int, w: int|
                0 <= u < w < 2 * transactions.len() ==> #[trigger] revealed(transactions, u)
                    != #[trigger] revealed(transactions, w)
            &&& forall|u: int, e: int|
                0 <= u < 2 * transactions.len() && 0 <= e < existing.len() ==> (
                #[trigger] existing[e]).0 != #[trigger] revealed(transactions, u)
        },
{
    let uses = uses_of(block_nr, transactions);
    lemma_uses_are_revealed(block_nr, transactions);
    law_no_evidence_iff_unspent(uses, existing);
    if nullifier_frauds(uses, existing).len() == 0 {
        assert forall|u: int, w: int| 0 <= u < w < 2 * transactions.len() implies #[trigger] revealed(
            transactions,
            u,
        ) != #[trigger] revealed(transactions, w) by {
            assert(uses[u].0 != uses[w].0);
        }
        assert forall|u: int, e: int|
            0 <= u < 2 * transactions.len() && 0 <= e < existing.len() implies (
        #[trigger] existing[e]).0 != #[trigger] revealed(transactions, u) by {
            assert(lookup(existing, uses[u].0) is None);
            lemma_lookup_some(existing, uses[u].0);
        }
    } else {
        if forall|u: int, w: int|
            0 <= u < w < 2 * transactions.len() ==> #[trigger] revealed(transactions, u)
                != #[trigger] revealed(transactions, w) {
            assert forall|i: int, k: int| 0 <= i < k < uses.len() implies (#[trigger] uses[i]).0 != (
            #[trigger] uses[k]).0 by {
                assert(revealed(transactions, i) != revealed(transactions, k));
            }
            let i = choose|i: int|
                0 <= i < uses.len() && lookup(existing, (#[trigger] uses[i]).0) is Some;
            lemma_lookup_some(existing, uses[i].0);
            let e = choose|e: int|
                0 <= e < existing.len() && (#[trigger] existing[e]).0 == uses[i].0;
            assert(existing[e].0 == revealed(transactions, i));
        }
    }
}

/// What is recorded of a block is the first place at which it reveals each nullifier that is not
/// on record: every such place, and nothing else.
pub proof fn law_first_reveals_are_recorded(
    block_nr: u64,
    transactions: Seq<ParsedTransaction>,
    existing: Seq<(B256, NullifierRecord)>,
    u: int,
    i: int,
)
    ensures
        0 <= u < 2 * transactions.len() && revealed_first(transactions, u) && (forall|e: int|
            0 <= e < existing.len() ==> (#[trigger] existing[e]).0 != revealed(transactions, u))
            ==> recorded_uses(uses_of(block_nr, transactions), existing).contains(
            (
                revealed(transactions, u),
                NullifierRecord { block_nr, tx_index: (u / 2) as u32, which: (u % 2) as u8 },
            ),
        ),
        0 <= i < recorded_uses(uses_of(block_nr, transactions), existing).len() ==> exists|w: int|
            0 <= w < 2 * transactions.len() && revealed_first(transactions, w) && recorded_uses(
                uses_of(block_nr, transactions),
                existing,
            )[i] == (
                #[trigger] revealed(transactions, w),
                NullifierRecord { block_nr, tx_index: (w / 2) as u32, which: (w % 2) as u8 },
            ),
{
    let uses = uses_of(block_nr, transactions);
    let fresh = first_uses(uses, uses.len());
    let kept = recorded_uses(uses, existing);
    lemma_uses_are_revealed(block_nr, transactions);
    lemma_first_uses(uses, uses.len());
    lemma_new_uses(fresh, existing, fresh.len());
    if 0 <= u < 2 * transactions.len() && revealed_first(transactions, u) && (forall|e: int|
        0 <= e < existing.len() ==> (#[trigger] existing[e]).0 != revealed(transactions, u)) {
        assert(uses[u].0 == revealed(transactions, u));
        assert forall|v: int| 0 <= v < u implies (#[trigger] uses[v]).0 != uses[u].0 by {
            assert(revealed(transactions, v) != revealed(transactions, u));
        }
        let j = lemma_first_use_kept(uses, uses.len(), u);
        lemma_lookup_some(existing, uses[u].0);
        let m = choose|m: int| 0 <= m < kept.len() && (#[trigger] kept[m]).0 == fresh[j].0;
        let k = choose|k: int| 0 <= k < fresh.len() && #[trigger] fresh[k] == kept[m];
        if k < j {
            assert(fresh[k].0 != fresh[j].0);
        } else if j < k {
            assert(fresh[j].0 != fresh[k].0);
        }
        assert(kept[m] == uses[u]);
    }
    if 0 <= i < kept.len() {
        let k = choose|k: int| 0 <= k < fresh.len() && #[trigger] fresh[k] == kept[i];
        let w = lemma_first_use_of(uses, uses.len(), k);
        assert(uses[w].0 == revealed(transactions, w));
        assert forall|v: int| 0 <= v < w implies #[trigger] revealed(transactions, v) != revealed(
            transactions,
            w,
        ) by {
            assert(uses[v].0 != uses[w].0);
        }
    }
}

/// Every nullifier that is used is among the first uses.
pub proof fn law_first_uses_cover(uses: Seq<(B256, NullifierRecord)>, u: int)
    requires
        0 <= u < uses.len(),
    ensures
        exists|j: int|
            0 <= j < first_uses(uses, uses.len()).len() && (#[trigger] first_uses(
                uses,
                uses.len(),
            )[j]).0 == uses[u].0,
{
    lemma_first_uses(uses, uses.len());
    assert(lookup(first_uses(uses, uses.len()), uses[u].0) is Some);
    lemma_lookup_some(first_uses(uses, uses.len()), uses[u].0);
}

/// Each of the first uses is a use, the first of its nullifier, and no nullifier comes twice among
/// them.
pub proof fn law_first_uses_are_uses(uses: Seq<(B256, NullifierRecord)>, j: int) -> (u: int)
    requires
        0 <= j < first_uses(uses, uses.len()).len(),
    ensures
        0 <= u < uses.len(),
        first_uses(uses, uses.len())[j] == uses[u],
        forall|v: int| 0 <= v < u ==> (#[trigger] uses[v]).0 != uses[u].0,
        forall|a: int, b: int|
            0 <= a < b < first_uses(uses, uses.len()).len() ==> (#[trigger] first_uses(
                uses,
                uses.len(),
            )[a]).0 != (#[trigger] first_uses(uses, uses.len())[b]).0,
{
    lemma_first_uses(uses, uses.len());
    lemma_first_use_of(uses, uses.len(), j)
}

/// The place at which evidence says that a nullifier is used again.
pub open spec fn second_place(evidence: EvidenceView) -> int {
    2 * evidence->NullifierDoubleSpend_second_tx_number
        + evidence->NullifierDoubleSpend_second_which
}

/// The evidence within a block is in the order of the places where nullifiers are used again.
proof fn lemma_in_block_frauds_ordered(
    block_nr: u64,
    transactions: Seq<ParsedTransaction>,
    count: nat,
    i: int,
    j: int,
)
    requires
        transactions.len() <= u32::MAX,
        count <= 2 * transactions.len(),
        0 <= i < j < in_block_frauds(uses_of(block_nr, transactions), count).len(),
    ensures
        second_place(in_block_frauds(uses_of(block_nr, transactions), count)[i]) < second_place(
            in_block_frauds(uses_of(block_nr, transactions), count)[j],
        ),
    decreases count,
{
    let uses = uses_of(block_nr, transactions);
    let before = in_block_frauds(uses, (count - 1) as nat);
    lemma_uses_are_revealed(block_nr, transactions);
    if j < before.len() {
        lemma_in_block_frauds_ordered(block_nr, transactions, (count - 1) as nat, i, j);
    } else {
        let (u, w) = lemma_in_block_fraud_of(uses, (count - 1) as nat, i);
        assert(uses[w].1.tx_index == (w / 2) as u32);
        assert(uses[count - 1].1.tx_index == ((count - 1) / 2) as u32);
    }
}

/// The first uses are in the order of their places.
proof fn lemma_first_uses_ordered(
    block_nr: u64,
    transactions: Seq<ParsedTransaction>,
    count: nat,
    i: int,
    j: int,
)
    requires
        transactions.len() <= u32::MAX,
        count <= 2 * transactions.len(),
        0 <= i < j < first_uses(uses_of(block_nr, transactions), count).len(),
    ensures
        ({
            let fresh = first_uses(uses_of(block_nr, transactions), count);
            2 * fresh[i].1.tx_index + fresh[i].1.which < 2 * fresh[j].1.tx_index + fresh[j].1.which
        }),
    decreases count,
{
    let uses = uses_of(block_nr, transactions);
    let before = first_uses(uses, (count - 1) as nat);
    lemma_uses_are_revealed(block_nr, transactions);
    if j < before.len() {
        lemma_first_uses_ordered(block_nr, transactions, (count - 1) as nat, i, j);
    } else {
        let w = lemma_first_use_of(uses, (count - 1) as nat, i);
        assert(uses[w].1.tx_index == (w / 2) as u32);
        assert(uses[count - 1].1.tx_index == ((count - 1) / 2) as u32);
    }
}

/// The evidence against earlier blocks is in the order of the block's places.
proof fn lemma_cross_block_frauds_ordered(
    block_nr: u64,
    transactions: Seq<ParsedTransaction>,
    existing: Seq<(B256, NullifierRecord)>,
    count: nat,
    i: int,
    j: int,
)
    requires
        transactions.len() <= u32::MAX,
        ({
            let uses = uses_of(block_nr, transactions);
            let fresh = first_uses(uses, uses.len());
            count <= fresh.len() && 0 <= i < j < cross_block_frauds(fresh, existing, count).len()
        }),
    ensures
        ({
            let uses = uses_of(block_nr, transactions);
            let found = cross_block_frauds(first_uses(uses, uses.len()), existing, count);
            second_place(found[i]) < second_place(found[j])
        }),
    decreases count,
{
    let uses = uses_of(block_nr, transactions);
    let fresh = first_uses(uses, uses.len());
    let before = cross_block_frauds(fresh, existing, (count - 1) as nat);
    if j < before.len() {
        lemma_cross_block_frauds_ordered(
            block_nr,
            transactions,
            existing,
            (count - 1) as nat,
            i,
            j,
        );
    } else {
        let k = lemma_cross_block_fraud_of(fresh, existing, (count - 1) as nat, i);
        lemma_first_uses_ordered(block_nr, transactions, uses.len(), k, count - 1);
    }
}

/// No evidence comes twice: each place of a block is at most once named as the one where a
/// nullifier is used again.
pub proof fn law_each_reuse_is_reported_once(
    block_nr: u64,
    transactions: Seq<ParsedTransaction>,
    existing: Seq<(B256, NullifierRecord)>,
    i: int,
    j: int,
)
    requires
        transactions.len() <= u32::MAX,
        0 <= i < j < nullifier_frauds(uses_of(block_nr, transactions), existing).len(),
    ensures
        second_place(nullifier_frauds(uses_of(block_nr, transactions), existing)[i]) != second_place(
            nullifier_frauds(uses_of(block_nr, transactions), existing)[j],
        ),
{
    let uses = uses_of(block_nr, transactions);
    let fresh = first_uses(uses, uses.len());
    let in_block = in_block_frauds(uses, uses.len());
    let cross = cross_block_frauds(fresh, existing, fresh.len());
    let n = in_block.len();
    lemma_uses_are_revealed(block_nr, transactions);
    if j < n {
        lemma_in_block_frauds_ordered(block_nr, transactions, uses.len(), i, j);
    } else if i >= n {
        lemma_cross_block_frauds_ordered(
            block_nr,
            transactions,
            existing,
            fresh.len(),
            i - n,
            j - n,
        );
    } else {
        let (u, w) = lemma_in_block_fraud_of(uses, uses.len(), i);
        let k = lemma_cross_block_fraud_of(fresh, existing, fresh.len(), j - n);
        let v = lemma_first_use_of(uses, uses.len(), k);
        assert(uses[w].1.tx_index == (w / 2) as u32);
        assert(uses[v].1.tx_index == (v / 2) as u32);
        assert(w != v) by {
            if w == v {
                assert(uses[u].0 != uses[v].0);
            }
        }
    }
}

} // verus!
