//! Trying a challenge again that could not be submitted: its block is checked afresh, against
//! what was there before it, and the evidence of the same kind is submitted.

use super::{fraud_type_name, kind_name, FraudWithContext};
use crate::text::same_text;
use crate::types::B256;
use crate::validators::nullifier::NullifierRecord;
use vstd::prelude::*;

verus! {

/// The anchors of earlier blocks, in their order.
pub open spec fn earlier_anchors(list: Seq<(u32, u32, bool, B256)>, block_nr: u64) -> Seq<
    (u32, u32, bool, B256),
> {
    list.filter(|a: (u32, u32, bool, B256)| a.0 < block_nr)
}

/// The records of earlier blocks, in their order.
pub open spec fn earlier_records(list: Seq<(B256, NullifierRecord)>, block_nr: u64) -> Seq<
    (B256, NullifierRecord),
> {
    list.filter(|r: (B256, NullifierRecord)| r.1.block_nr < block_nr)
}

/// The positions and roots of earlier blocks, in their order, `list` giving position, number
/// and root of blocks.
pub open spec fn earlier_roots(list: Seq<(u64, u64, B256)>, block_nr: u64) -> Seq<(u64, B256)>
    decreases list.len(),
{
    if list.len() == 0 {
        Seq::empty()
    } else {
        let before = earlier_roots(list.drop_last(), block_nr);
        let (position, number, root) = list.last();
        if number < block_nr {
            before.push((position, root))
        } else {
            before
        }
    }
}

/// The anchors of earlier blocks.
pub fn anchors_before_block(list: &[(u32, u32, bool, B256)], block_nr: u64) -> (r: Vec<
    (u32, u32, bool, B256),
>)
    ensures
        r@ == earlier_anchors(list@, block_nr),
{
    let mut kept: Vec<(u32, u32, bool, B256)> = Vec::new();
    let mut i: usize = 0;
    proof {
        reveal(Seq::filter);
    }
    assert(list@.take(0) =~= Seq::empty());
    while i < list.len()
        invariant
            i <= list@.len(),
            kept@ == earlier_anchors(list@.take(i as int), block_nr),
        decreases list@.len() - i,
    {
        let anchor = list[i];
        proof {
            reveal(Seq::filter);
            assert(list@.take(i + 1).drop_last() =~= list@.take(i as int));
        }
        if (anchor.0 as u64) < block_nr {
            kept.push(anchor);
        }
        i += 1;
    }
    assert(list@.take(i as int) =~= list@);
    kept
}

/// The records of earlier blocks.
pub fn records_before_block(list: &[(B256, NullifierRecord)], block_nr: u64) -> (r: Vec<
    (B256, NullifierRecord),
>)
    ensures
        r@ == earlier_records(list@, block_nr),
{
    let mut kept: Vec<(B256, NullifierRecord)> = Vec::new();
    let mut i: usize = 0;
    proof {
        reveal(Seq::filter);
    }
    assert(list@.take(0) =~= Seq::empty());
    while i < list.len()
        invariant
            i <= list@.len(),
            kept@ == earlier_records(list@.take(i as int), block_nr),
        decreases list@.len() - i,
    {
        let record = list[i];
        proof {
            reveal(Seq::filter);
            assert(list@.take(i + 1).drop_last() =~= list@.take(i as int));
        }
        if record.1.block_nr < block_nr {
            kept.push(record);
        }
        i += 1;
    }
    assert(list@.take(i as int) =~= list@);
    kept
}

/// The positions and roots of earlier blocks.
pub fn roots_before_block(list: &[(u64, u64, B256)], block_nr: u64) -> (r: Vec<(u64, B256)>)
    ensures
        r@ == earlier_roots(list@, block_nr),
{
    let mut kept: Vec<(u64, B256)> = Vec::new();
    let mut i: usize = 0;
    assert(list@.take(0) =~= Seq::empty());
    while i < list.len()
        invariant
            i <= list@.len(),
            kept@ == earlier_roots(list@.take(i as int), block_nr),
        decreases list@.len() - i,
    {
        let (position, number, root) = list[i];
        proof {
            assert(list@.take(i + 1).drop_last() =~= list@.take(i as int));
        }
        if number < block_nr {
            kept.push((position, root));
        }
        i += 1;
    }
    assert(list@.take(i as int) =~= list@);
    kept
}

/// Whether evidence is of the kind with a name.
pub open spec fn is_of_kind(found: FraudWithContext, name: Seq<char>) -> bool {
    kind_name(found.fraud@)@ == name
}

/// The places, in a list of evidence, of that of the kind with a name, the first before the
/// others.
pub open spec fn places_of_kind(found: Seq<FraudWithContext>, name: Seq<char>) -> Seq<int>
    decreases found.len(),
{
    if found.len() == 0 {
        Seq::empty()
    } else {
        let before = places_of_kind(found.drop_last(), name);
        if is_of_kind(found.last(), name) {
            before.push(found.len() - 1)
        } else {
            before
        }
    }
}

/// Numbers as integers.
pub open spec fn as_places(list: Seq<usize>) -> Seq<int> {
    Seq::new(list.len(), |i: int| list[i] as int)
}

/// The places of the evidence that a challenge of a kind is tried again with.
pub fn frauds_of_type(found: &[FraudWithContext], fraud_type: &str) -> (r: Vec<usize>)
    ensures
        as_places(r@) == places_of_kind(found@, fraud_type@),
{
    let mut places: Vec<usize> = Vec::new();
    let mut i: usize = 0;
    assert(found@.take(0) =~= Seq::empty());
    assert(as_places(places@) =~= Seq::empty());
    while i < found.len()
        invariant
            i <= found@.len(),
            as_places(places@) == places_of_kind(found@.take(i as int), fraud_type@),
        decreases found@.len() - i,
    {
        let ghost before = places@;
        proof {
            assert(found@.take(i + 1).drop_last() =~= found@.take(i as int));
        }
        if same_text(fraud_type_name(&found[i].fraud), fraud_type) {
            places.push(i);
            assert(as_places(places@) =~= as_places(before).push(i as int));
        }
        i += 1;
    }
    assert(found@.take(i as int) =~= found@);
    places
}

/// What is done with a challenge that is tried again.
#[derive(Clone, Copy, Debug, PartialEq, Eq, Structural)]
pub enum RetryAction {
    /// Submit the evidence at a place.
    Submit { place: usize },
    /// The challenge waits no more: it is deleted.
    Delete,
    /// The try is counted, and the challenge goes on waiting.
    CountTry,
}

/// What is done next, of the evidence at `places` the first `tried` having been tried and
/// `submitted` saying whether one was submitted: the evidence is tried in its order, until
/// one is.
pub open spec fn action_after(places: Seq<usize>, tried: nat, submitted: bool) -> RetryAction {
    if submitted {
        RetryAction::Delete
    } else if tried < places.len() {
        RetryAction::Submit { place: places[tried as int] }
    } else {
        RetryAction::CountTry
    }
}

/// A challenge that is being tried again.
#[derive(Debug)]
pub struct Retry {
    /// Places of the evidence that it is tried with.
    pub places: Vec<usize>,
    /// How much of it was tried.
    pub tried: usize,
    /// Whether one was submitted.
    pub submitted: bool,
}

impl Retry {
    /// No more is tried than there is.
    pub open spec fn wf(self) -> bool {
        self.tried <= self.places@.len()
    }

    /// Starts to try a challenge again with the evidence at places. Where the block could not
    /// be checked again, there is none.
    pub fn new(places: Vec<usize>) -> (r: Retry)
        ensures
            r.wf(),
            r.places@ == places@,
            r.tried == 0,
            !r.submitted,
    {
        Retry { places, tried: 0, submitted: false }
    }

    /// What is to be done next.
    pub fn next_action(&self) -> (r: RetryAction)
        requires
            self.wf(),
        ensures
            r == action_after(self.places@, self.tried as nat, self.submitted),
    {
        if self.submitted {
            RetryAction::Delete
        } else if self.tried < self.places.len() {
            RetryAction::Submit { place: self.places[self.tried] }
        } else {
            RetryAction::CountTry
        }
    }

    /// Takes in whether the evidence that was to be submitted was.
    pub fn report(&mut self, submitted: bool)
        requires
            old(self).wf(),
            action_after(old(self).places@, old(self).tried as nat, old(self).submitted) is Submit,
        ensures
            final(self).wf(),
            final(self).places@ == old(self).places@,
            final(self).tried == old(self).tried + 1,
            final(self).submitted == submitted,
    {
        let count: usize = self.places.len();
        assert(self.tried < count);
        self.tried = self.tried + 1;
        self.submitted = submitted;
    }
}

/// How much was tried, and whether one was submitted, after `rounds` rounds, in which
/// `outcomes` says of each whether its evidence was submitted.
pub open spec fn tries_after(places: Seq<usize>, outcomes: Seq<bool>, rounds: nat) -> (nat, bool)
    decreases rounds,
{
    if rounds == 0 {
        (0, false)
    } else {
        let (tried, submitted) = tries_after(places, outcomes, (rounds - 1) as nat);
        if action_after(places, tried, submitted) is Submit {
            (tried + 1, outcomes[rounds - 1])
        } else {
            (tried, submitted)
        }
    }
}

/// A challenge is deleted after the first evidence that is submitted, and nothing is submitted
/// after it; where none is, every one is tried once, and then one try is counted.
pub proof fn law_retry_ends(places: Seq<usize>, outcomes: Seq<bool>, rounds: nat)
    requires
        rounds <= places.len(),
        forall|i: int| 0 <= i < rounds ==> !#[trigger] outcomes[i],
    ensures
        ({
            let (tried, submitted) = tries_after(places, outcomes, rounds);
            &&& tried == rounds
            &&& !submitted
            &&& action_after(places, tried, submitted) == (if rounds < places.len() {
                RetryAction::Submit { place: places[rounds as int] }
            } else {
                RetryAction::CountTry
            })
        }),
        rounds < places.len() && outcomes[rounds as int] ==> ({
            let (tried, submitted) = tries_after(places, outcomes, rounds + 1);
            tried == rounds + 1 && action_after(places, tried, submitted) is Delete
        }),
    decreases rounds,
{
    if rounds > 0 {
        law_retry_ends(places, outcomes, (rounds - 1) as nat);
        assert(!outcomes[rounds - 1]);
    }
    assert(tries_after(places, outcomes, rounds + 1) == {
        let (tried, submitted) = tries_after(places, outcomes, rounds);
        if action_after(places, tried, submitted) is Submit {
            (tried + 1, outcomes[rounds as int])
        } else {
            (tried, submitted)
        }
    });
}

/// A block is checked again against the block roots that were there when it came, whatever
/// blocks came with it or after it.
pub proof fn law_retry_is_against_roots_before(
    before: Seq<(u64, u64, B256)>,
    since: Seq<(u64, u64, B256)>,
    block_nr: u64,
)
    requires
        forall|i: int| 0 <= i < before.len() ==> (#[trigger] before[i]).1 < block_nr,
        forall|i: int| 0 <= i < since.len() ==> (#[trigger] since[i]).1 >= block_nr,
    ensures
        earlier_roots(before + since, block_nr) == earlier_roots(before, block_nr),
        earlier_roots(before, block_nr) == Seq::new(
            before.len(),
            |i: int| (before[i].0, before[i].2),
        ),
    decreases before.len() + since.len(),
{
    if since.len() > 0 {
        assert((before + since).drop_last() =~= before + since.drop_last());
        law_retry_is_against_roots_before(before, since.drop_last(), block_nr);
    } else {
        assert(before + since =~= before);
        if before.len() > 0 {
            law_retry_is_against_roots_before(before.drop_last(), since, block_nr);
            assert(before.last().1 < block_nr);
        }
        assert(earlier_roots(before, block_nr) =~= Seq::new(
            before.len(),
            |i: int| (before[i].0, before[i].2),
        ));
    }
}

/// A block is checked again against the records of nullifiers that were there when it came,
/// whatever was recorded of it or after it.
pub proof fn law_retry_is_against_records_before(
    before: Seq<(B256, NullifierRecord)>,
    since: Seq<(B256, NullifierRecord)>,
    block_nr: u64,
)
    requires
        forall|i: int| 0 <= i < before.len() ==> (#[trigger] before[i]).1.block_nr < block_nr,
        forall|i: int| 0 <= i < since.len() ==> (#[trigger] since[i]).1.block_nr >= block_nr,
    ensures
        earlier_records(before + since, block_nr) == before,
    decreases before.len() + since.len(),
{
    reveal(Seq::filter);
    if since.len() > 0 {
        assert((before + since).drop_last() =~= before + since.drop_last());
        law_retry_is_against_records_before(before, since.drop_last(), block_nr);
    } else {
        assert(before + since =~= before);
        if before.len() > 0 {
            law_retry_is_against_records_before(before.drop_last(), since, block_nr);
            assert(before.drop_last() + since =~= before.drop_last());
            assert(before.last().1.block_nr < block_nr);
            assert(before.drop_last().push(before.last()) =~= before);
        }
    }
}

/// The evidence that a challenge is tried again with is all that is of its kind, each once and in
/// its order.
pub proof fn law_all_evidence_of_the_kind_is_tried(
    found: Seq<FraudWithContext>,
    name: Seq<char>,
    i: int,
)
    ensures
        places_of_kind(found, name).contains(i) <==> (0 <= i < found.len() && kind_name(
            found[i].fraud@,
        )@ == name),
        forall|a: int, b: int|
            0 <= a < b < places_of_kind(found, name).len() ==> #[trigger] places_of_kind(
                found,
                name,
            )[a] < #[trigger] places_of_kind(found, name)[b],
        forall|a: int|
            0 <= a < places_of_kind(found, name).len() ==> 0 <= #[trigger] places_of_kind(
                found,
                name,
            )[a] < found.len(),
    decreases found.len(),
{
    let all = places_of_kind(found, name);
    if found.len() > 0 {
        let front = found.drop_last();
        let before = places_of_kind(front, name);
        law_all_evidence_of_the_kind_is_tried(front, name, i);
        let n = found.len() - 1;
        if 0 <= i < n {
            assert(front[i] == found[i]);
        }
        if all.len() > before.len() {
            assert(all.last() == n);
            assert(all[before.len() as int] == n);
        }
        assert forall|k: int| before.contains(k) implies all.contains(k) by {
            let a = choose|a: int| 0 <= a < before.len() && before[a] == k;
            assert(all[a] == k);
        }
        if all.contains(i) && i != n {
            let a = choose|a: int| 0 <= a < all.len() && all[a] == i;
            assert(before[a] == i);
        }
        if all.contains(n) && all.len() == before.len() {
            let a = choose|a: int| 0 <= a < before.len() && before[a] == n;
            assert(before[a] < front.len());
        }
        assert forall|a: int, b: int| 0 <= a < b < all.len() implies #[trigger] all[a]
            < #[trigger] all[b] by {
            assert(all[a] == before[a]);
            if b < before.len() {
                assert(all[b] == before[b]);
            }
        }
        assert forall|a: int| 0 <= a < all.len() implies 0 <= #[trigger] all[a] < found.len() by {
            if a < before.len() {
                assert(all[a] == before[a]);
            }
        }
    }
}

/// A block is checked again against the anchors that were known when it came, whatever anchors
/// it or a later block left.
pub proof fn law_retry_is_against_anchors_before(
    before: Seq<(u32, u32, bool, B256)>,
    since: Seq<(u32, u32, bool, B256)>,
    block_nr: u64,
)
    requires
        forall|i: int| 0 <= i < before.len() ==> (#[trigger] before[i]).0 < block_nr,
        forall|i: int| 0 <= i < since.len() ==> (#[trigger] since[i]).0 >= block_nr,
    ensures
        earlier_anchors(before + since, block_nr) == before,
    decreases before.len() + since.len(),
{
    reveal(Seq::filter);
    if since.len() > 0 {
        assert((before + since).drop_last() =~= before + since.drop_last());
        law_retry_is_against_anchors_before(before, since.drop_last(), block_nr);
    } else {
        assert(before + since =~= before);
        if before.len() > 0 {
            law_retry_is_against_anchors_before(before.drop_last(), since, block_nr);
            assert(before.drop_last() + since =~= before.drop_last());
            assert(before.last().0 < block_nr);
            assert(before.drop_last().push(before.last()) =~= before);
        }
    }
}

} // verus!
