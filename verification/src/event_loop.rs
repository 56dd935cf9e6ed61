//! What is done with a batch of events, step by step, and when.
//!
//! A batch is processed in one database transaction. Whoever runs the loop asks for the
//! next step, carries it out, and reports whether it went well.

use vstd::prelude::*;

verus! {

/// How the event loop is run.
#[derive(Clone, Copy, Debug)]
pub struct EventLoopConfig {
    /// Milliseconds between two rounds.
    pub poll_interval_ms: u64,
    /// Whether no challenge is submitted.
    pub dry_run: bool,
    /// Name that messages are headed with.
    pub service_name: &'static str,
}

/// How the event loop ended.
#[derive(Debug)]
pub enum EventLoopExit {
    /// It was told to stop.
    Shutdown,
    /// It could not go on.
    Error(String),
}

/// How far a batch is.
#[derive(Clone, Copy, Debug, PartialEq, Eq, Structural)]
pub enum BatchPhase {
    /// A transaction is to be begun.
    Begin,
    /// The event of this index is next; `failed` says whether one before it could not be
    /// processed.
    Events { next: usize, failed: bool },
    /// The progress is to be saved.
    Save,
    /// The transaction is to be committed.
    Commit,
    /// The transaction is to be rolled back.
    Rollback,
    /// There is nothing left to do.
    Done,
}

/// What is to be done.
#[derive(Clone, Copy, Debug, PartialEq, Eq, Structural)]
pub enum BatchStep {
    BeginTransaction,
    ProcessEvent { index: usize },
    SaveProgress,
    CommitTransaction,
    RollbackTransaction,
    Finish,
}

/// Where a batch of so many events starts. Nothing is done for one without events.
pub open spec fn first_phase(num_events: nat) -> BatchPhase {
    if num_events == 0 {
        BatchPhase::Done
    } else {
        BatchPhase::Begin
    }
}

/// The phase in which the next step is taken: a shutdown cuts the events short, and after an
/// event that could not be processed nothing is kept of the batch.
pub open spec fn phase_now(phase: BatchPhase, num_events: nat, shutdown: bool) -> BatchPhase {
    match phase {
        BatchPhase::Events { next, failed } => if next >= num_events {
            if failed {
                BatchPhase::Rollback
            } else {
                BatchPhase::Save
            }
        } else if shutdown {
            BatchPhase::Rollback
        } else {
            phase
        },
        _ => phase,
    }
}

/// The step that is taken in a phase.
pub open spec fn step_in(phase: BatchPhase) -> BatchStep {
    match phase {
        BatchPhase::Begin => BatchStep::BeginTransaction,
        BatchPhase::Events { next, .. } => BatchStep::ProcessEvent { index: next },
        BatchPhase::Save => BatchStep::SaveProgress,
        BatchPhase::Commit => BatchStep::CommitTransaction,
        BatchPhase::Rollback => BatchStep::RollbackTransaction,
        BatchPhase::Done => BatchStep::Finish,
    }
}

/// The phase after a step. An event that could not be processed does not hold up the
/// others, but is remembered; a transaction that could not be committed is rolled back.
pub open spec fn phase_after(phase: BatchPhase, succeeded: bool) -> BatchPhase {
    match phase {
        BatchPhase::Begin => if succeeded {
            BatchPhase::Events { next: 0, failed: false }
        } else {
            BatchPhase::Done
        },
        BatchPhase::Events { next, failed } => BatchPhase::Events {
            next: (next + 1) as usize,
            failed: failed || !succeeded,
        },
        BatchPhase::Save => if succeeded {
            BatchPhase::Commit
        } else {
            BatchPhase::Rollback
        },
        BatchPhase::Commit => if succeeded {
            BatchPhase::Done
        } else {
            BatchPhase::Rollback
        },
        BatchPhase::Rollback => BatchPhase::Done,
        BatchPhase::Done => BatchPhase::Done,
    }
}

/// A batch of events that is being processed.
#[derive(Clone, Copy, Debug)]
pub struct EventBatch {
    pub num_events: usize,
    pub phase: BatchPhase,
}

impl EventBatch {
    /// A batch of so many events.
    pub fn new(num_events: usize) -> (r: EventBatch)
        ensures
            r.num_events == num_events,
            r.phase == first_phase(num_events as nat),
    {
        if num_events == 0 {
            EventBatch { num_events, phase: BatchPhase::Done }
        } else {
            EventBatch { num_events, phase: BatchPhase::Begin }
        }
    }

    /// What is to be done next, `shutdown` saying whether the loop was told to stop.
    pub fn next_step(&mut self, shutdown: bool) -> (r: BatchStep)
        ensures
            final(self).num_events == old(self).num_events,
            final(self).phase == phase_now(old(self).phase, old(self).num_events as nat, shutdown),
            r == step_in(final(self).phase),
            r matches BatchStep::ProcessEvent { index } ==> index < old(self).num_events,
    {
        match self.phase {
            BatchPhase::Events { next, failed } => {
                if next >= self.num_events {
                    self.phase = if failed {
                        BatchPhase::Rollback
                    } else {
                        BatchPhase::Save
                    };
                } else if shutdown {
                    self.phase = BatchPhase::Rollback;
                }
            },
            _ => {},
        }
        match self.phase {
            BatchPhase::Begin => BatchStep::BeginTransaction,
            BatchPhase::Events { next, .. } => BatchStep::ProcessEvent { index: next },
            BatchPhase::Save => BatchStep::SaveProgress,
            BatchPhase::Commit => BatchStep::CommitTransaction,
            BatchPhase::Rollback => BatchStep::RollbackTransaction,
            BatchPhase::Done => BatchStep::Finish,
        }
    }

    /// Takes in whether the step that was asked for went well.
    pub fn report(&mut self, succeeded: bool)
        requires
            old(self).phase matches BatchPhase::Events { next, .. } ==> next < old(self).num_events,
        ensures
            final(self).num_events == old(self).num_events,
            final(self).phase == phase_after(old(self).phase, succeeded),
    {
        self.phase = match self.phase {
            BatchPhase::Begin => if succeeded {
                BatchPhase::Events { next: 0, failed: false }
            } else {
                BatchPhase::Done
            },
            BatchPhase::Events { next, failed } => BatchPhase::Events {
                next: next + 1,
                failed: failed || !succeeded,
            },
            BatchPhase::Save => if succeeded {
                BatchPhase::Commit
            } else {
                BatchPhase::Rollback
            },
            BatchPhase::Commit => if succeeded {
                BatchPhase::Done
            } else {
                BatchPhase::Rollback
            },
            BatchPhase::Rollback => BatchPhase::Done,
            BatchPhase::Done => BatchPhase::Done,
        };
    }
}

/// The phase after `count` rounds, in which `shutdown` says of each round whether the loop
/// was told to stop, and `succeeded` whether its step went well.
pub open spec fn phase_of_round(
    num_events: nat,
    shutdown: Seq<bool>,
    succeeded: Seq<bool>,
    count: nat,
) -> BatchPhase
    decreases count,
{
    if count == 0 {
        first_phase(num_events)
    } else {
        let before = phase_of_round(num_events, shutdown, succeeded, (count - 1) as nat);
        phase_after(phase_now(before, num_events, shutdown[count - 1]), succeeded[count - 1])
    }
}

/// The step of a round.
pub open spec fn step_of_round(
    num_events: nat,
    shutdown: Seq<bool>,
    succeeded: Seq<bool>,
    round: nat,
) -> BatchStep {
    step_in(
        phase_now(phase_of_round(num_events, shutdown, succeeded, round), num_events, shutdown[round as int]),
    )
}

/// Whether every step of the rounds from the second up to `count` went well.
pub open spec fn all_succeeded(succeeded: Seq<bool>, count: nat) -> bool {
    forall|i: int| 1 <= i < count ==> #[trigger] succeeded[i]
}

/// In the phase of the events, one event was processed per round after the first, the loop
/// was not told to stop, and it is known whether one of them failed.
proof fn lemma_events_phase(
    num_events: nat,
    shutdown: Seq<bool>,
    succeeded: Seq<bool>,
    count: nat,
)
    requires
        num_events <= usize::MAX,
    ensures
        phase_of_round(num_events, shutdown, succeeded, count) matches BatchPhase::Events {
            next,
            failed,
        } ==> {
            &&& count == next + 1
            &&& next <= num_events
            &&& failed == !all_succeeded(succeeded, count)
            &&& forall|i: int|
                1 <= i < count ==> step_of_round(num_events, shutdown, succeeded, i as nat) == (
                BatchStep::ProcessEvent { index: (i - 1) as usize }) && !#[trigger] shutdown[i]
        },
    decreases count,
{
    if count > 0 {
        lemma_progress(num_events, shutdown, succeeded, (count - 1) as nat);
        lemma_events_phase(num_events, shutdown, succeeded, (count - 1) as nat);
    }
}

/// A transaction is committed only after every event of the batch was processed in its
/// order, each of them with success, without the loop being told to stop in between, and the
/// progress was saved.
pub proof fn law_commit_after_all_events(
    num_events: nat,
    shutdown: Seq<bool>,
    succeeded: Seq<bool>,
    round: nat,
)
    requires
        num_events <= usize::MAX,
        step_of_round(num_events, shutdown, succeeded, round) is CommitTransaction,
    ensures
        round == num_events + 2,
        num_events > 0,
        step_of_round(num_events, shutdown, succeeded, 0) is BeginTransaction,
        succeeded[0],
        forall|i: int|
            1 <= i <= num_events ==> step_of_round(num_events, shutdown, succeeded, i as nat) == (
            BatchStep::ProcessEvent { index: (i - 1) as usize }) && !#[trigger] shutdown[i],
        all_succeeded(succeeded, num_events + 1),
        step_of_round(num_events, shutdown, succeeded, (num_events + 1) as nat) is SaveProgress,
        succeeded[num_events as int + 1],
{
    assert(phase_of_round(num_events, shutdown, succeeded, round) is Commit);
    let before = (round - 1) as nat;
    lemma_events_phase(num_events, shutdown, succeeded, before);
    assert(phase_now(
        phase_of_round(num_events, shutdown, succeeded, before),
        num_events,
        shutdown[before as int],
    ) is Save);
    lemma_progress(num_events, shutdown, succeeded, before);
    lemma_begun(num_events, shutdown, succeeded, before);
}

/// Where one event of a batch could not be processed, and the loop is not told to stop, the
/// others still are, and then the transaction is rolled back.
pub proof fn law_failed_event_is_rolled_back(
    num_events: nat,
    shutdown: Seq<bool>,
    succeeded: Seq<bool>,
)
    requires
        0 < num_events <= usize::MAX,
        succeeded[0],
        forall|i: int| 1 <= i <= num_events ==> !#[trigger] shutdown[i],
        !all_succeeded(succeeded, num_events + 1),
    ensures
        forall|i: int|
            1 <= i <= num_events ==> #[trigger] step_of_round(
                num_events,
                shutdown,
                succeeded,
                i as nat,
            ) == (BatchStep::ProcessEvent { index: (i - 1) as usize }),
        step_of_round(num_events, shutdown, succeeded, num_events + 1) is RollbackTransaction,
        phase_of_round(num_events, shutdown, succeeded, num_events + 2) is Done,
{
    lemma_undisturbed(num_events, shutdown, succeeded, num_events + 1);
    lemma_events_phase(num_events, shutdown, succeeded, num_events + 1);
    assert forall|i: int| 1 <= i <= num_events implies #[trigger] step_of_round(
        num_events,
        shutdown,
        succeeded,
        i as nat,
    ) == (BatchStep::ProcessEvent { index: (i - 1) as usize }) by {
        assert(!shutdown[i]);
    }
}

/// As long as the loop is not told to stop, the events are gone through.
proof fn lemma_undisturbed(num_events: nat, shutdown: Seq<bool>, succeeded: Seq<bool>, count: nat)
    requires
        0 < num_events <= usize::MAX,
        succeeded[0],
        1 <= count <= num_events + 1,
        forall|i: int| 1 <= i < count ==> !#[trigger] shutdown[i],
    ensures
        phase_of_round(num_events, shutdown, succeeded, count) is Events,
    decreases count,
{
    if count > 1 {
        lemma_undisturbed(num_events, shutdown, succeeded, (count - 1) as nat);
        lemma_progress(num_events, shutdown, succeeded, (count - 1) as nat);
        assert(!shutdown[count - 1]);
    } else {
        assert(phase_of_round(num_events, shutdown, succeeded, 0) is Begin);
    }
}

/// The events are only come to once a transaction was begun.
proof fn lemma_begun(num_events: nat, shutdown: Seq<bool>, succeeded: Seq<bool>, count: nat)
    requires
        num_events <= usize::MAX,
    ensures
        phase_of_round(num_events, shutdown, succeeded, count) is Events ==> {
            &&& num_events > 0
            &&& step_of_round(num_events, shutdown, succeeded, 0) is BeginTransaction
            &&& succeeded[0]
        },
    decreases count,
{
    if count > 0 {
        lemma_begun(num_events, shutdown, succeeded, (count - 1) as nat);
        lemma_progress(num_events, shutdown, succeeded, (count - 1) as nat);
    }
}

/// A batch comes to an end: after four more rounds than it has events nothing is left to be
/// done, whatever happens.
pub proof fn law_batch_ends(num_events: nat, shutdown: Seq<bool>, succeeded: Seq<bool>)
    requires
        num_events <= usize::MAX,
    ensures
        phase_of_round(num_events, shutdown, succeeded, num_events + 4) is Done,
{
    lemma_progress(num_events, shutdown, succeeded, num_events + 4);
}

/// Whether a round ends the transaction: by rolling it back, or by committing it.
pub open spec fn closes_transaction(
    num_events: nat,
    shutdown: Seq<bool>,
    succeeded: Seq<bool>,
    round: nat,
) -> bool {
    match step_of_round(num_events, shutdown, succeeded, round) {
        BatchStep::RollbackTransaction => true,
        BatchStep::CommitTransaction => succeeded[round as int],
        _ => false,
    }
}

/// A transaction that was begun is either committed or rolled back before the batch ends.
pub proof fn law_transaction_is_closed(
    num_events: nat,
    shutdown: Seq<bool>,
    succeeded: Seq<bool>,
    count: nat,
)
    requires
        0 < num_events <= usize::MAX,
        succeeded[0],
        phase_of_round(num_events, shutdown, succeeded, count) is Done,
    ensures
        exists|i: nat|
            i < count && #[trigger] closes_transaction(num_events, shutdown, succeeded, i),
    decreases count,
{
    assert(count > 0);
    let before = (count - 1) as nat;
    if phase_of_round(num_events, shutdown, succeeded, before) is Done {
        law_transaction_is_closed(num_events, shutdown, succeeded, before);
        let i = choose|i: nat|
            i < before && #[trigger] closes_transaction(num_events, shutdown, succeeded, i);
        assert(i < count && closes_transaction(num_events, shutdown, succeeded, i));
    } else {
        lemma_progress(num_events, shutdown, succeeded, before);
        assert(closes_transaction(num_events, shutdown, succeeded, before));
    }
}

/// How far a batch is at least after so many rounds.
proof fn lemma_progress(num_events: nat, shutdown: Seq<bool>, succeeded: Seq<bool>, count: nat)
    requires
        num_events <= usize::MAX,
    ensures
        match phase_of_round(num_events, shutdown, succeeded, count) {
            BatchPhase::Begin => count == 0,
            BatchPhase::Events { next, .. } => count == next + 1 && next <= num_events,
            BatchPhase::Save => false,
            BatchPhase::Commit => count <= num_events + 2,
            BatchPhase::Rollback => count <= num_events + 3,
            BatchPhase::Done => true,
        },
    decreases count,
{
    if count > 0 {
        lemma_progress(num_events, shutdown, succeeded, (count - 1) as nat);
    }
}

/// Whether challenges are submitted for what was found in an event.
pub fn should_submit(num_frauds: usize, dry_run: bool) -> (r: bool)
    ensures
        r == (num_frauds > 0 && !dry_run),
{
    num_frauds > 0 && !dry_run
}

/// Where every event is processed with success and the loop is not told to stop, the progress is
/// saved and the transaction committed.
pub proof fn law_undisturbed_batch_is_committed(
    num_events: nat,
    shutdown: Seq<bool>,
    succeeded: Seq<bool>,
)
    requires
        0 < num_events <= usize::MAX,
        forall|i: int| 1 <= i <= num_events ==> !#[trigger] shutdown[i],
        forall|i: int| 0 <= i <= num_events + 1 ==> #[trigger] succeeded[i],
    ensures
        step_of_round(num_events, shutdown, succeeded, num_events + 1) is SaveProgress,
        step_of_round(num_events, shutdown, succeeded, num_events + 2) is CommitTransaction,
        succeeded[num_events as int + 2] ==> phase_of_round(
            num_events,
            shutdown,
            succeeded,
            num_events + 3,
        ) is Done,
        !succeeded[num_events as int + 2] ==> step_of_round(
            num_events,
            shutdown,
            succeeded,
            num_events + 3,
        ) is RollbackTransaction,
{
    assert(succeeded[0]);
    lemma_undisturbed(num_events, shutdown, succeeded, num_events + 1);
    lemma_events_phase(num_events, shutdown, succeeded, num_events + 1);
    assert(all_succeeded(succeeded, num_events + 1));
    assert(succeeded[num_events as int + 1]);
    assert(phase_of_round(num_events, shutdown, succeeded, num_events + 2) is Commit);
}

/// Where the loop is told to stop before all events were processed, no further event is, and the
/// transaction is rolled back.
pub proof fn law_shutdown_rolls_back(
    num_events: nat,
    shutdown: Seq<bool>,
    succeeded: Seq<bool>,
    round: nat,
)
    requires
        0 < num_events <= usize::MAX,
        succeeded[0],
        1 <= round <= num_events,
        forall|i: int| 1 <= i < round ==> !#[trigger] shutdown[i],
        shutdown[round as int],
    ensures
        step_of_round(num_events, shutdown, succeeded, round) is RollbackTransaction,
        phase_of_round(num_events, shutdown, succeeded, round + 1) is Done,
{
    lemma_undisturbed(num_events, shutdown, succeeded, round);
    lemma_progress(num_events, shutdown, succeeded, round);
}

/// Nothing is done for a batch without events, nor after a transaction that could not be begun,
/// nor once a batch is done.
pub proof fn law_nothing_is_done_without_a_transaction(
    num_events: nat,
    shutdown: Seq<bool>,
    succeeded: Seq<bool>,
    round: nat,
)
    requires
        num_events == 0 || (!succeeded[0] && round > 0),
    ensures
        step_of_round(num_events, shutdown, succeeded, round) is Finish,
    decreases round,
{
    if round > 0 {
        if num_events == 0 {
            law_nothing_is_done_without_a_transaction(
                num_events,
                shutdown,
                succeeded,
                (round - 1) as nat,
            );
        } else if round > 1 {
            law_nothing_is_done_without_a_transaction(
                num_events,
                shutdown,
                succeeded,
                (round - 1) as nat,
            );
        } else {
            assert(phase_of_round(num_events, shutdown, succeeded, 0) is Begin);
        }
    }
}

/// Where the progress cannot be saved, the transaction is rolled back.
pub proof fn law_unsaved_progress_is_rolled_back(
    num_events: nat,
    shutdown: Seq<bool>,
    succeeded: Seq<bool>,
    round: nat,
)
    requires
        step_of_round(num_events, shutdown, succeeded, round) is SaveProgress,
        !succeeded[round as int],
    ensures
        step_of_round(num_events, shutdown, succeeded, round + 1) is RollbackTransaction,
{
}

} // verus!
