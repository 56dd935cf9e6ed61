//! Asking two places for blobs: a first one, and a second one for what the first does not
//! give.
//!
//! Whoever asks takes the next step, carries it out, and hands in the reply.

use crate::beacon::blob_views;
use vstd::prelude::*;

verus! {

/// How far the asking is.
#[derive(Clone, Copy, Debug, PartialEq, Eq, Structural)]
pub enum FetchPhase {
    /// The first place is to be asked for all blobs at once.
    All,
    /// The first place is to be asked for the next blob.
    Primary,
    /// The second place is to be asked for the next blob.
    Fallback,
    /// All blobs are there.
    Done,
    /// A blob is in neither place.
    Failed,
}

/// What is to be done.
#[derive(Clone, Copy, Debug, PartialEq, Eq, Structural)]
pub enum FetchStep {
    AskPrimaryForAll,
    AskPrimary { index: usize },
    AskFallback { index: usize },
    Finish,
    Fail,
}

/// What is known of an asking.
#[verifier::ext_equal]
pub struct FetchView {
    /// Number of blobs that are asked for.
    pub count: nat,
    pub phase: FetchPhase,
    /// The blobs that are there, in the order in which they are asked for.
    pub blobs: Seq<Seq<u8>>,
}

/// Where the asking for so many blobs starts. Nothing is done where none is asked for.
pub open spec fn first_fetch(count: nat) -> FetchView {
    FetchView {
        count,
        phase: if count == 0 {
            FetchPhase::Done
        } else {
            FetchPhase::All
        },
        blobs: Seq::empty(),
    }
}

/// Where the asking for blobs one by one starts.
pub open spec fn one_by_one(count: nat) -> FetchView {
    FetchView {
        count,
        phase: if count == 0 {
            FetchPhase::Done
        } else {
            FetchPhase::Primary
        },
        blobs: Seq::empty(),
    }
}

/// The step that is taken next.
pub open spec fn fetch_step(v: FetchView) -> FetchStep {
    match v.phase {
        FetchPhase::All => FetchStep::AskPrimaryForAll,
        FetchPhase::Primary => FetchStep::AskPrimary { index: v.blobs.len() as usize },
        FetchPhase::Fallback => FetchStep::AskFallback { index: v.blobs.len() as usize },
        FetchPhase::Done => FetchStep::Finish,
        FetchPhase::Failed => FetchStep::Fail,
    }
}

/// What is known after the reply on all blobs: where there is none, they are asked for one
/// by one.
pub open spec fn after_all(v: FetchView, reply: Option<Seq<Seq<u8>>>) -> FetchView {
    match (v.phase, reply) {
        (FetchPhase::All, Some(blobs)) => FetchView { phase: FetchPhase::Done, blobs, ..v },
        (FetchPhase::All, None) => FetchView { phase: FetchPhase::Primary, ..v },
        _ => v,
    }
}

/// What is known after the reply on one blob: what the first place does not give is asked of
/// the second, and what neither gives ends the asking.
pub open spec fn after_one(v: FetchView, reply: Option<Seq<u8>>) -> FetchView {
    if v.phase is Primary || v.phase is Fallback {
        match reply {
            Some(blob) => FetchView {
                count: v.count,
                phase: if v.blobs.len() + 1 < v.count {
                    FetchPhase::Primary
                } else {
                    FetchPhase::Done
                },
                blobs: v.blobs.push(blob),
            },
            None => FetchView {
                phase: if v.phase is Primary {
                    FetchPhase::Fallback
                } else {
                    FetchPhase::Failed
                },
                ..v
            },
        }
    } else {
        v
    }
}

/// Blobs that are being asked for.
pub struct BlobFetch {
    count: usize,
    phase: FetchPhase,
    blobs: Vec<Vec<u8>>,
}

impl View for BlobFetch {
    type V = FetchView;

    closed spec fn view(&self) -> FetchView {
        FetchView {
            count: self.count as nat,
            phase: self.phase,
            blobs: blob_views(self.blobs@),
        }
    }
}

impl BlobFetch {
    /// Before the first reply nothing is there, and while blobs are asked for one by one,
    /// some are missing.
    pub open spec fn wf(self) -> bool {
        &&& self@.count <= usize::MAX
        &&& self@.phase is All ==> self@ == first_fetch(self@.count)
        &&& self@.phase is Primary || self@.phase is Fallback ==> self@.blobs.len() < self@.count
    }

    /// Starts to ask for so many blobs.
    pub fn new(count: usize) -> (r: BlobFetch)
        ensures
            r.wf(),
            r@ == first_fetch(count as nat),
    {
        let fetch = BlobFetch {
            count,
            phase: if count == 0 {
                FetchPhase::Done
            } else {
                FetchPhase::All
            },
            blobs: Vec::new(),
        };
        assert(fetch@.blobs =~= Seq::empty());
        fetch
    }

    /// Starts to ask for a single blob.
    pub fn single() -> (r: BlobFetch)
        ensures
            r.wf(),
            r@ == one_by_one(1),
    {
        let fetch = BlobFetch { count: 1, phase: FetchPhase::Primary, blobs: Vec::new() };
        assert(fetch@.blobs =~= Seq::empty());
        fetch
    }

    /// What is to be done next.
    pub fn next_step(&self) -> (r: FetchStep)
        ensures
            r == fetch_step(self@),
    {
        match self.phase {
            FetchPhase::All => FetchStep::AskPrimaryForAll,
            FetchPhase::Primary => FetchStep::AskPrimary { index: self.blobs.len() },
            FetchPhase::Fallback => FetchStep::AskFallback { index: self.blobs.len() },
            FetchPhase::Done => FetchStep::Finish,
            FetchPhase::Failed => FetchStep::Fail,
        }
    }

    /// Takes in what the first place gave when it was asked for all blobs.
    pub fn take_all(&mut self, reply: Option<Vec<Vec<u8>>>)
        requires
            old(self).wf(),
            old(self)@.phase is All,
        ensures
            final(self).wf(),
            final(self)@ == after_all(
                old(self)@,
                match reply {
                    Some(blobs) => Some(blob_views(blobs@)),
                    None => None,
                },
            ),
    {
        match reply {
            Some(blobs) => {
                self.blobs = blobs;
                self.phase = FetchPhase::Done;
            },
            None => {
                self.phase = FetchPhase::Primary;
            },
        }
    }

    /// Takes in what was given when the next blob was asked for. Returns whether the first
    /// place is to be given it: that is so where it came from the second.
    pub fn take_blob(&mut self, reply: Option<Vec<u8>>) -> (r: bool)
        requires
            old(self).wf(),
            old(self)@.phase is Primary || old(self)@.phase is Fallback,
        ensures
            final(self).wf(),
            final(self)@ == after_one(
                old(self)@,
                match reply {
                    Some(blob) => Some(blob@),
                    None => None,
                },
            ),
            r == (old(self)@.phase is Fallback && reply is Some),
    {
        let from_fallback: bool = match self.phase {
            FetchPhase::Fallback => true,
            _ => false,
        };
        match reply {
            Some(blob) => {
                let ghost before = self.blobs@;
                let ghost bytes = blob@;
                self.blobs.push(blob);
                assert(blob_views(self.blobs@) =~= blob_views(before).push(bytes));
                self.phase = if self.blobs.len() < self.count {
                    FetchPhase::Primary
                } else {
                    FetchPhase::Done
                };
                from_fallback
            },
            None => {
                self.phase = if from_fallback {
                    FetchPhase::Failed
                } else {
                    FetchPhase::Fallback
                };
                false
            },
        }
    }

    /// The blobs, where all are there.
    pub fn finish(self) -> (r: Option<Vec<Vec<u8>>>)
        ensures
            r is Some <==> self@.phase is Done,
            r matches Some(blobs) ==> blob_views(blobs@) == self@.blobs,
    {
        match self.phase {
            FetchPhase::Done => Some(self.blobs),
            _ => None,
        }
    }
}

/// What is known after one blob was asked of the first place and, where that does not give
/// it, of the second.
pub open spec fn after_both(
    v: FetchView,
    primary: Option<Seq<u8>>,
    fallback: Option<Seq<u8>>,
) -> FetchView {
    let v1 = after_one(v, primary);
    if v1.phase is Fallback {
        after_one(v1, fallback)
    } else {
        v1
    }
}

/// What is known after the first `done` blobs were asked for one by one, `primary` and
/// `fallback` being what the two places give.
pub open spec fn after_each(
    v: FetchView,
    primary: Seq<Option<Seq<u8>>>,
    fallback: Seq<Option<Seq<u8>>>,
    done: nat,
) -> FetchView
    decreases done,
{
    if done == 0 {
        v
    } else {
        after_both(
            after_each(v, primary, fallback, (done - 1) as nat),
            primary[done - 1],
            fallback[done - 1],
        )
    }
}

/// What one of two places gives, the first before the second.
pub open spec fn given(primary: Option<Seq<u8>>, fallback: Option<Seq<u8>>) -> Option<Seq<u8>> {
    if primary is Some {
        primary
    } else {
        fallback
    }
}

/// After the first `done` blobs were asked for, they are there in their order, or one of
/// them is in neither place.
proof fn lemma_after_each(
    count: nat,
    primary: Seq<Option<Seq<u8>>>,
    fallback: Seq<Option<Seq<u8>>>,
    done: nat,
)
    requires
        0 < count,
        done <= count,
    ensures
        ({
            let v = after_each(one_by_one(count), primary, fallback, done);
            &&& v.count == count
            &&& if forall|i: int| 0 <= i < done ==> #[trigger] given(primary[i], fallback[i]) is Some {
                &&& v.phase == (if done < count {
                    FetchPhase::Primary
                } else {
                    FetchPhase::Done
                })
                &&& v.blobs.len() == done
                &&& forall|i: int|
                    0 <= i < done ==> Some(v.blobs[i]) == #[trigger] given(primary[i], fallback[i])
            } else {
                v.phase is Failed
            }
        }),
    decreases done,
{
    if done > 0 {
        lemma_after_each(count, primary, fallback, (done - 1) as nat);
        let last = given(primary[done - 1], fallback[done - 1]);
        if last is None {
            assert(0 <= done - 1 < done);
        }
    }
}

/// Asking for blobs one by one succeeds exactly where each is in one of the two places. The
/// blobs then come in the order in which they were asked for, each from the first place
/// where it is there.
pub proof fn law_fetch_result(
    count: nat,
    primary: Seq<Option<Seq<u8>>>,
    fallback: Seq<Option<Seq<u8>>>,
)
    ensures
        ({
            let v = after_each(one_by_one(count), primary, fallback, count);
            let complete = forall|i: int|
                0 <= i < count ==> #[trigger] given(primary[i], fallback[i]) is Some;
            &&& complete ==> v.phase is Done && v.blobs.len() == count && forall|i: int|
                0 <= i < count ==> Some(v.blobs[i]) == #[trigger] given(primary[i], fallback[i])
            &&& !complete ==> v.phase is Failed
        }),
{
    if count > 0 {
        lemma_after_each(count, primary, fallback, count);
    }
}

/// Where the first place does not give all blobs at once, they are asked for one by one as
/// if it had not been asked.
pub proof fn law_no_reply_on_all(count: nat)
    requires
        count > 0,
    ensures
        after_all(first_fetch(count), None) == one_by_one(count),
{
}

/// Blobs that the first place gives all at once are taken as they come, and nothing more is asked.
/// One by one, the next blob is asked of the first place, and of the second only where the first
/// has not given it.
pub proof fn law_places_are_asked_in_turn(v: FetchView, blobs: Seq<Seq<u8>>, blob: Seq<u8>)
    requires
        v.blobs.len() < v.count <= usize::MAX,
    ensures
        v.phase is All ==> {
            let after = after_all(v, Some(blobs));
            fetch_step(v) is AskPrimaryForAll && after.blobs == blobs && fetch_step(after) is Finish
        },
        v.phase is Primary ==> {
            &&& fetch_step(v) == (FetchStep::AskPrimary { index: v.blobs.len() as usize })
            &&& fetch_step(after_one(v, None)) == (FetchStep::AskFallback {
                index: v.blobs.len() as usize,
            })
            &&& after_one(v, None).blobs == v.blobs
        },
        v.phase is Fallback ==> {
            &&& fetch_step(v) == (FetchStep::AskFallback { index: v.blobs.len() as usize })
            &&& fetch_step(after_one(v, None)) is Fail
        },
        v.phase is Primary || v.phase is Fallback ==> {
            let after = after_one(v, Some(blob));
            &&& after.blobs == v.blobs.push(blob)
            &&& after.blobs.len() < v.count ==> fetch_step(after) == (FetchStep::AskPrimary {
                index: after.blobs.len() as usize,
            })
            &&& after.blobs.len() == v.count ==> fetch_step(after) is Finish
        },
{
}

/// Where no blob is wanted, none is asked for.
pub proof fn law_no_blob_is_no_question()
    ensures
        fetch_step(first_fetch(0)) is Finish,
        first_fetch(0).blobs.len() == 0,
{
}

} // verus!
