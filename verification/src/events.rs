//! The events of the rollup's contract: which blocks to ask for next, and in what order
//! what came is processed.

use crate::types::{zero_address, Address, BlockData, B256, U256};
use vstd::prelude::*;

verus! {

/// A new block of the rollup.
#[derive(Debug)]
pub struct NewRootEvent {
    /// Number of the rollup's block.
    pub block_number: U256,
    /// Anchor after the block.
    pub anchor: B256,
    pub l2_block_hash: B256,
    pub block_data: BlockData,
    /// Number of the first layer's block that holds the event.
    pub l1_block_number: u64,
    pub tx_hash: B256,
}

/// Blocks of the rollup that are taken back.
#[derive(Clone, Copy, Debug, PartialEq, Eq, Structural)]
pub struct RollbackEvent {
    pub from: U256,
    pub to: U256,
    /// Number of the first layer's block that holds the event.
    pub l1_block_number: u64,
}

/// An event of the rollup's contract.
#[derive(Debug)]
pub enum ChainEvent {
    NewRoot(NewRootEvent),
    Rollback(RollbackEvent),
}

/// Number of the first layer's block that holds an event.
pub open spec fn event_block(event: ChainEvent) -> u64 {
    match event {
        ChainEvent::NewRoot(e) => e.l1_block_number,
        ChainEvent::Rollback(e) => e.l1_block_number,
    }
}

impl ChainEvent {
    /// Number of the first layer's block that holds the event.
    pub fn l1_block_number(&self) -> (r: u64)
        ensures
            r == event_block(*self),
    {
        match self {
            ChainEvent::NewRoot(e) => e.l1_block_number,
            ChainEvent::Rollback(e) => e.l1_block_number,
        }
    }
}

/// How events are asked for.
#[derive(Clone, Copy, Debug)]
pub struct EventListenerConfig {
    pub entrypoint_address: Address,
    /// How many blocks to go back where nothing was processed before.
    pub lookback_blocks: u64,
    pub poll_interval_ms: u64,
    /// How many blocks have to follow on one before it is processed.
    pub confirmations: u64,
}

impl Default for EventListenerConfig {
    fn default() -> (r: Self)
        ensures
            r.entrypoint_address == zero_address(),
            r.lookback_blocks == 1000,
            r.poll_interval_ms == 1000,
            r.confirmations == 6,
    {
        EventListenerConfig {
            entrypoint_address: Address::zero(),
            lookback_blocks: 1000,
            poll_interval_ms: 1000,
            confirmations: 6,
        }
    }
}

/// What came of asking for events.
#[derive(Debug)]
pub struct PollResult {
    pub events: Vec<ChainEvent>,
    /// Number of new blocks that could not be read.
    pub new_root_parse_failures: usize,
    /// Number of rollbacks that could not be read.
    pub rollback_parse_failures: usize,
}

impl PollResult {
    /// Whether some event could not be read.
    pub fn has_parse_failures(&self) -> (r: bool)
        ensures
            r == (self.new_root_parse_failures > 0 || self.rollback_parse_failures > 0),
    {
        self.new_root_parse_failures > 0 || self.rollback_parse_failures > 0
    }

    /// How many events could not be read.
    pub fn total_parse_failures(&self) -> (r: usize)
        requires
            self.new_root_parse_failures + self.rollback_parse_failures <= usize::MAX,
        ensures
            r == self.new_root_parse_failures + self.rollback_parse_failures,
    {
        self.new_root_parse_failures + self.rollback_parse_failures
    }
}

impl Default for PollResult {
    fn default() -> (r: Self)
        ensures
            r.events@.len() == 0,
            r.new_root_parse_failures == 0,
            r.rollback_parse_failures == 0,
    {
        PollResult { events: Vec::new(), new_root_parse_failures: 0, rollback_parse_failures: 0 }
    }
}

/// Where an event goes in an ordered list: behind all that do not come after it.
pub open spec fn place_for(events: Seq<ChainEvent>, block: u64) -> int
    decreases events.len(),
{
    if events.len() == 0 {
        0
    } else if event_block(events.last()) <= block {
        events.len() as int
    } else {
        place_for(events.drop_last(), block)
    }
}

/// Events by block, those of one block in the order in which they came.
pub open spec fn in_block_order(events: Seq<ChainEvent>) -> Seq<ChainEvent>
    decreases events.len(),
{
    if events.len() == 0 {
        Seq::empty()
    } else {
        let sorted = in_block_order(events.drop_last());
        sorted.insert(place_for(sorted, event_block(events.last())), events.last())
    }
}

/// Where an event goes lies within the list, the events before it not coming after it, and
/// the next, if the list is in order, coming after it.
proof fn lemma_place_for(events: Seq<ChainEvent>, block: u64)
    ensures
        0 <= place_for(events, block) <= events.len(),
        place_for(events, block) > 0 ==> event_block(events[place_for(events, block) - 1]) <= block,
        forall|i: int|
            place_for(events, block) <= i < events.len() ==> event_block(#[trigger] events[i])
                > block,
    decreases events.len(),
{
    if events.len() > 0 && event_block(events.last()) > block {
        let front = events.drop_last();
        lemma_place_for(front, block);
        assert forall|i: int| place_for(events, block) <= i < events.len() implies event_block(
            #[trigger] events[i],
        ) > block by {
            if i < front.len() {
                assert(front[i] == events[i]);
            }
        }
    }
}

/// Puts events into the order of their blocks, those of one block staying in the order in
/// which they came.
pub fn sort_events(events: Vec<ChainEvent>) -> (r: Vec<ChainEvent>)
    ensures
        r@ == in_block_order(events@),
{
    let ghost all = events@;
    let mut rest = events;
    let mut reversed: Vec<ChainEvent> = Vec::new();
    let ghost mut taken: nat = 0;
    while rest.len() > 0
        invariant
            taken + rest@.len() == all.len(),
            rest@ == all.take(rest@.len() as int),
            reversed@ == all.skip(rest@.len() as int).reverse(),
        decreases rest@.len(),
    {
        let ghost before = rest@;
        match rest.pop() {
            Some(event) => {
                reversed.push(event);
                proof {
                    taken = taken + 1;
                    assert(rest@ =~= all.take(rest@.len() as int));
                    assert(reversed@ =~= all.skip(rest@.len() as int).reverse());
                }
            },
            None => {},
        }
    }
    let mut sorted: Vec<ChainEvent> = Vec::new();
    assert(reversed@ =~= all.reverse());
    assert(all.take(0) =~= Seq::empty());
    while reversed.len() > 0
        invariant
            reversed@.len() <= all.len(),
            reversed@ == all.skip(all.len() - reversed@.len()).reverse(),
            sorted@ == in_block_order(all.take(all.len() - reversed@.len())),
        decreases reversed@.len(),
    {
        let ghost done = all.len() - reversed@.len();
        match reversed.pop() {
            Some(event) => {
                proof {
                    assert(event == all[done]);
                    assert(reversed@ =~= all.skip(done + 1).reverse());
                    assert(all.take(done + 1).drop_last() =~= all.take(done));
                    lemma_place_for(sorted@, event_block(event));
                }
                let block = event.l1_block_number();
                let mut at: usize = sorted.len();
                assert(sorted@.take(at as int) =~= sorted@);
                while at > 0 && sorted[at - 1].l1_block_number() > block
                    invariant
                        at <= sorted@.len(),
                        place_for(sorted@, block) == place_for(sorted@.take(at as int), block),
                    decreases at,
                {
                    proof {
                        assert(sorted@.take(at as int).drop_last() =~= sorted@.take(at - 1));
                        assert(sorted@.take(at as int).last() == sorted@[at - 1]);
                    }
                    at -= 1;
                }
                proof {
                    if at > 0 {
                        assert(sorted@.take(at as int).last() == sorted@[at - 1]);
                    }
                    assert(at == place_for(sorted@, block));
                }
                sorted.insert(at, event);
            },
            None => {},
        }
    }
    assert(all.take(all.len() as int) =~= all);
    sorted
}

/// Whether events are in the order of their blocks.
pub open spec fn ordered(events: Seq<ChainEvent>) -> bool {
    forall|i: int, j: int|
        0 <= i < j < events.len() ==> event_block(#[trigger] events[i]) <= event_block(
            #[trigger] events[j],
        )
}

/// The events of one block.
pub open spec fn events_of_block(events: Seq<ChainEvent>, block: u64) -> Seq<ChainEvent>
    decreases events.len(),
{
    if events.len() == 0 {
        Seq::empty()
    } else {
        let front = events_of_block(events.drop_last(), block);
        if event_block(events.last()) == block {
            front.push(events.last())
        } else {
            front
        }
    }
}

/// Processing goes by block, nothing is lost or added, and the events of one block keep the
/// order in which they came.
pub proof fn law_events_in_block_order(events: Seq<ChainEvent>, block: u64)
    ensures
        ordered(in_block_order(events)),
        in_block_order(events).to_multiset() == events.to_multiset(),
        events_of_block(in_block_order(events), block) == events_of_block(events, block),
    decreases events.len(),
{
    broadcast use vstd::seq_lib::group_to_multiset_ensures;

    if events.len() > 0 {
        let front = events.drop_last();
        let last = events.last();
        law_events_in_block_order(front, block);
        let sorted = in_block_order(front);
        let at = place_for(sorted, event_block(last));
        lemma_place_for(sorted, event_block(last));
        let after = in_block_order(events);
        assert forall|i: int, j: int| 0 <= i < j < after.len() implies event_block(
            #[trigger] after[i],
        ) <= event_block(#[trigger] after[j]) by {
            if i < at {
                assert(after[i] == sorted[i]);
                assert(event_block(sorted[i]) <= event_block(sorted[at - 1]));
            } else if i > at {
                assert(after[i] == sorted[i - 1]);
            }
            if j < at {
                assert(after[j] == sorted[j]);
            } else if j > at {
                assert(after[j] == sorted[j - 1]);
            }
        }
        assert(events =~= front.push(last));
        lemma_insert_multiset(sorted, at, last);
        lemma_block_of_insert(sorted, at, last, block);
    } else {
        assert(in_block_order(events) =~= events);
    }
}

/// Inserting an event adds it to those that there are.
proof fn lemma_insert_multiset(events: Seq<ChainEvent>, at: int, event: ChainEvent)
    requires
        0 <= at <= events.len(),
    ensures
        events.insert(at, event).to_multiset() == events.to_multiset().insert(event),
{
    broadcast use vstd::seq_lib::group_to_multiset_ensures;

    let front = events.take(at);
    let back = events.skip(at);
    assert(events =~= front + back);
    assert(events.insert(at, event) =~= front.push(event) + back);
    vstd::seq_lib::lemma_multiset_commutative(front.push(event), back);
    vstd::seq_lib::lemma_multiset_commutative(front, back);
    assert(events.insert(at, event).to_multiset() =~= events.to_multiset().insert(event));
}

/// An event that is put behind those of its block comes last among them.
proof fn lemma_block_of_insert(events: Seq<ChainEvent>, at: int, event: ChainEvent, block: u64)
    requires
        0 <= at <= events.len(),
        forall|i: int|
            at <= i < events.len() ==> event_block(#[trigger] events[i]) > event_block(event),
    ensures
        events_of_block(events.insert(at, event), block) == (if event_block(event) == block {
            events_of_block(events, block).push(event)
        } else {
            events_of_block(events, block)
        }),
    decreases events.len(),
{
    let after = events.insert(at, event);
    if at == events.len() {
        assert(after.drop_last() =~= events);
    } else {
        let front = events.drop_last();
        assert forall|i: int| at <= i < front.len() implies event_block(#[trigger] front[i])
            > event_block(event) by {
            assert(front[i] == events[i]);
        }
        lemma_block_of_insert(front, at, event, block);
        assert(after.drop_last() =~= front.insert(at, event));
        assert(after.last() == events.last());
        assert(event_block(events[events.len() - 1]) > event_block(event));
    }
}

/// Keeps track of the blocks whose events were asked for.
#[derive(Clone, Copy, Debug)]
pub struct EventListener {
    pub config: EventListenerConfig,
    pub last_processed_block: u64,
}

/// A number less another, not going below zero.
pub open spec fn less(a: u64, b: u64) -> u64 {
    if a >= b {
        (a - b) as u64
    } else {
        0
    }
}

/// The blocks to ask for, both ends included: those after the last processed one that
/// enough blocks follow on.
pub open spec fn blocks_to_poll(last_processed: u64, current: u64, confirmations: u64) -> Option<
    (u64, u64),
> {
    let safe = less(current, confirmations);
    if safe <= last_processed {
        None
    } else {
        Some(((last_processed + 1) as u64, safe))
    }
}

impl EventListener {
    /// A listener that has processed nothing.
    pub fn new(config: EventListenerConfig) -> (r: EventListener)
        ensures
            r.config == config,
            r.last_processed_block == 0,
    {
        EventListener { config, last_processed_block: 0 }
    }

    /// Sets out from a block, or else from as far back as is configured.
    pub fn init(&mut self, start_block: Option<u64>, current_block: u64)
        ensures
            final(self).config == old(self).config,
            final(self).last_processed_block == (match start_block {
                Some(block) => block,
                None => less(current_block, old(self).config.lookback_blocks),
            }),
    {
        self.last_processed_block = match start_block {
            Some(block) => block,
            None => if current_block >= self.config.lookback_blocks {
                current_block - self.config.lookback_blocks
            } else {
                0
            },
        };
    }

    /// The blocks to ask for, both ends included, where there are any.
    pub fn poll_range(&self, current_block: u64) -> (r: Option<(u64, u64)>)
        ensures
            r == blocks_to_poll(
                self.last_processed_block,
                current_block,
                self.config.confirmations,
            ),
            r matches Some(range) ==> range.0 <= range.1 <= current_block,
    {
        let safe_block: u64 = if current_block >= self.config.confirmations {
            current_block - self.config.confirmations
        } else {
            0
        };
        if safe_block <= self.last_processed_block {
            None
        } else {
            Some((self.last_processed_block + 1, safe_block))
        }
    }

    /// Takes in what came of asking up to a block.
    pub fn finish_poll(
        &mut self,
        to_block: u64,
        new_roots: Vec<NewRootEvent>,
        new_root_parse_failures: usize,
        rollbacks: Vec<RollbackEvent>,
        rollback_parse_failures: usize,
    ) -> (r: PollResult)
        ensures
            final(self).config == old(self).config,
            final(self).last_processed_block == to_block,
            r.events@ == in_block_order(gathered(new_roots@, rollbacks@)),
            r.new_root_parse_failures == new_root_parse_failures,
            r.rollback_parse_failures == rollback_parse_failures,
    {
        let events = gather_events(new_roots, rollbacks);
        self.last_processed_block = to_block;
        PollResult {
            events: sort_events(events),
            new_root_parse_failures,
            rollback_parse_failures,
        }
    }

    /// The last block whose events were asked for.
    pub fn last_processed_block(&self) -> (r: u64)
        ensures
            r == self.last_processed_block,
    {
        self.last_processed_block
    }

    /// Sets the last block whose events were asked for.
    pub fn set_last_processed_block(&mut self, block: u64)
        ensures
            *final(self) == (EventListener { last_processed_block: block, ..*old(self) }),
    {
        self.last_processed_block = block;
    }
}

/// New blocks, then rollbacks.
pub open spec fn gathered(new_roots: Seq<NewRootEvent>, rollbacks: Seq<RollbackEvent>) -> Seq<
    ChainEvent,
> {
    Seq::new(new_roots.len(), |i: int| ChainEvent::NewRoot(new_roots[i])) + Seq::new(
        rollbacks.len(),
        |i: int| ChainEvent::Rollback(rollbacks[i]),
    )
}

/// New blocks, then rollbacks.
fn gather_events(new_roots: Vec<NewRootEvent>, rollbacks: Vec<RollbackEvent>) -> (r: Vec<
    ChainEvent,
>)
    ensures
        r@ == gathered(new_roots@, rollbacks@),
{
    let ghost roots = new_roots@;
    let mut rest = new_roots;
    let mut events: Vec<ChainEvent> = Vec::new();
    while rest.len() > 0
        invariant
            rest@.len() + events@.len() == roots.len(),
            rest@ == roots.skip(events@.len() as int),
            forall|i: int|
                0 <= i < events@.len() ==> #[trigger] events@[i] == ChainEvent::NewRoot(roots[i]),
        decreases rest@.len(),
    {
        let ghost done = events@.len();
        let event = rest.remove(0);
        assert(event == roots[done as int]);
        events.push(ChainEvent::NewRoot(event));
        assert(rest@ =~= roots.skip(events@.len() as int));
    }
    let ghost first = events@;
    assert(first =~= Seq::new(roots.len(), |i: int| ChainEvent::NewRoot(roots[i])));
    let mut k: usize = 0;
    while k < rollbacks.len()
        invariant
            k <= rollbacks@.len(),
            events@.len() == first.len() + k,
            events@.take(first.len() as int) == first,
            forall|i: int|
                0 <= i < k ==> #[trigger] events@[first.len() + i] == ChainEvent::Rollback(
                    rollbacks@[i],
                ),
        decreases rollbacks@.len() - k,
    {
        events.push(ChainEvent::Rollback(rollbacks[k]));
        k += 1;
        assert(events@.take(first.len() as int) =~= first);
    }
    proof {
        let want = gathered(roots, rollbacks@);
        assert forall|i: int| 0 <= i < want.len() implies events@[i] == want[i] by {
            if i < first.len() {
                assert(events@.take(first.len() as int)[i] == first[i]);
            } else {
                assert(events@[first.len() + (i - first.len())] == ChainEvent::Rollback(
                    rollbacks@[i - first.len()],
                ));
            }
        }
        assert(events@ =~= want);
    }
    events
}

/// Asking again and again leaves no block out and asks for none twice: each time it goes on
/// right behind the last block that was asked for.
pub proof fn law_polling_is_gapless(last_processed: u64, current: u64, later: u64, confirmations: u64)
    ensures
        blocks_to_poll(last_processed, current, confirmations) matches Some((from, to)) ==> {
            &&& from == last_processed + 1
            &&& from <= to
            &&& to + confirmations <= current
            &&& blocks_to_poll(to, later, confirmations) matches Some((next_from, _)) ==> next_from
                == to + 1
        },
{
}

/// All blocks that enough blocks follow on are asked for, up to the last of them; nothing is
/// asked for exactly where none of them is new.
pub proof fn law_polling_goes_up_to_the_confirmed(last_processed: u64, current: u64, confirmations: u64)
    ensures
        blocks_to_poll(last_processed, current, confirmations) is None <==> current <= last_processed
            + confirmations,
        blocks_to_poll(last_processed, current, confirmations) matches Some((from, to)) ==> from
            == last_processed + 1 && to + confirmations == current,
        current >= confirmations ==> less(current, confirmations) + confirmations == current,
        current < confirmations ==> less(current, confirmations) == 0,
{
}

/// Every new block and every rollback that was read is processed, and nothing else.
pub proof fn law_every_event_is_processed(
    new_roots: Seq<NewRootEvent>,
    rollbacks: Seq<RollbackEvent>,
    i: int,
)
    ensures
        ({
            let processed = in_block_order(gathered(new_roots, rollbacks));
            &&& processed.len() == new_roots.len() + rollbacks.len()
            &&& 0 <= i < new_roots.len() ==> processed.contains(ChainEvent::NewRoot(new_roots[i]))
            &&& 0 <= i < rollbacks.len() ==> processed.contains(ChainEvent::Rollback(rollbacks[i]))
            &&& 0 <= i < processed.len() ==> match processed[i] {
                ChainEvent::NewRoot(e) => new_roots.contains(e),
                ChainEvent::Rollback(e) => rollbacks.contains(e),
            }
        }),
{
    broadcast use vstd::seq_lib::group_to_multiset_ensures;

    let all = gathered(new_roots, rollbacks);
    let processed = in_block_order(all);
    law_events_in_block_order(all, 0);
    assert(processed.len() == processed.to_multiset().len());
    assert(all.len() == all.to_multiset().len());
    if 0 <= i < new_roots.len() {
        assert(all[i] == ChainEvent::NewRoot(new_roots[i]));
        assert(all.contains(all[i]));
        assert(all.to_multiset().contains(all[i]));
        assert(processed.contains(all[i]));
    }
    if 0 <= i < rollbacks.len() {
        let k = new_roots.len() + i;
        assert(all[k] == ChainEvent::Rollback(rollbacks[i]));
        assert(all.contains(all[k]));
        assert(all.to_multiset().contains(all[k]));
        assert(processed.contains(all[k]));
    }
    if 0 <= i < processed.len() {
        assert(processed.contains(processed[i]));
        assert(processed.to_multiset().contains(processed[i]));
        assert(all.contains(processed[i]));
        let k = choose|k: int| 0 <= k < all.len() && all[k] == processed[i];
        if k < new_roots.len() {
            assert(all[k] == ChainEvent::NewRoot(new_roots[k]));
            assert(new_roots.contains(new_roots[k]));
        } else {
            let r = k - new_roots.len();
            assert(all[k] == ChainEvent::Rollback(rollbacks[r]));
            assert(rollbacks.contains(rollbacks[r]));
        }
    }
}

/// An event belongs to the first layer's block that it names.
pub proof fn law_event_is_of_its_block(event: ChainEvent)
    ensures
        event matches ChainEvent::NewRoot(e) ==> event_block(event) == e.l1_block_number,
        event matches ChainEvent::Rollback(e) ==> event_block(event) == e.l1_block_number,
{
}

} // verus!
