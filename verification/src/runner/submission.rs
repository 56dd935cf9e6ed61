//! Putting a challenge together, step by step: which headers, blobs and anchors it takes, in
//! which order they are asked for, and what is built from them.
//!
//! Whoever submits a challenge asks for the next step, carries it out, and hands in what came
//! of it, until the challenge can be built or cannot be.

use super::plan::{
    attach_hashes, attached, earlier_anchor_index, earlier_in_reach, finish_tree_update,
    finished_tree_update, last_anchor_index, law_last_anchor_is_the_last_field, plan_challenge, plan_of,
    prior_in_reach, starting_anchor, target_block, transaction_anchor_index, ChallengePlan, PriorAnchor,
};
use super::{default_block_data, is_first_header, ChallengerRunner, RunnerError};
use crate::beacon::blob_views;
use crate::challenge::contents::{
    law_deposit_challenge_opens_the_leaf, law_nullifier_challenge_opens_both, law_proof_opens_its_field,
    law_transaction_challenge_opens_the_transaction, opens_at,
};
use crate::challenge::memory::{anchor_address, deposit_leaf_address, nullifier_address, tx_address};
use crate::challenge::{
    challenged_deposit, challenged_transaction, challenged_update, deposit_challenge, nullifier_challenge,
    proof_at, transaction_challenge, update_in_reach, BlobWithHash, ChallengeBuilder, ChallengeError,
    DepositChallenge, DepositChallengeParams, NullifierChallenge, NullifierChallengeParams,
    TransactionChallenge, TransactionChallengeParams, TreeUpdateChallenge, TreeUpdateChallengeParams,
};
use crate::types::{BlockData, BlockView, Proof, B256};
use crate::validators::{EvidenceView, FraudEvidence};
use vstd::prelude::*;

verus! {

/// What a block is to a challenge.
#[derive(Clone, Copy, Debug, PartialEq, Eq, Structural)]
pub enum Role {
    /// The block that is challenged.
    Challenged,
    /// The block to roll back to.
    Target,
    /// The block that uses a nullifier first.
    First,
    /// The block that uses it again.
    Second,
    /// The block whose anchor the challenged part goes on from.
    Prior,
}

/// What is to be done.
#[derive(Clone, Copy, Debug, PartialEq)]
pub enum SubmissionStep {
    /// Load the header of a block, and the number of the first layer's block with its blobs.
    LoadHeader { role: Role, block_nr: u64 },
    /// Fetch the blobs of a block.
    FetchBlobs { role: Role },
    /// Load the anchor that a transaction refers to.
    LoadAnchor { block_nr: u32, update_nr: u32, is_deposit: bool },
    /// Make the proof of the challenged tree update, starting from an anchor.
    Prove { start: B256 },
    /// Build the challenge.
    Build,
    /// Give up.
    Fail { error: RunnerError },
}

/// What is known of a block's header.
#[derive(Debug)]
pub enum Header {
    /// It was not asked for yet.
    Unknown,
    /// There is none.
    Missing,
    Found { block_data: BlockData, l1_block_number: u64 },
}

/// What is known of a block's header.
#[verifier::ext_equal]
pub enum HeaderView {
    Unknown,
    Missing,
    Found { block: BlockView, l1_block_number: u64 },
}

impl View for Header {
    type V = HeaderView;

    open spec fn view(&self) -> HeaderView {
        match *self {
            Header::Unknown => HeaderView::Unknown,
            Header::Missing => HeaderView::Missing,
            Header::Found { block_data, l1_block_number } => HeaderView::Found {
                block: block_data@,
                l1_block_number,
            },
        }
    }
}

/// What is known of the headers and blobs of one block.
#[verifier::ext_equal]
pub struct BlockKnowledge {
    pub header: HeaderView,
    pub blobs: Option<Seq<Seq<u8>>>,
}

/// What is known of a challenge that is being put together.
#[verifier::ext_equal]
pub struct SubmissionView {
    pub fraud: EvidenceView,
    pub block_nr: u64,
    pub l1_block_number: u64,
    pub genesis_anchor: B256,
    pub challenged: BlockKnowledge,
    pub target: BlockKnowledge,
    pub first: BlockKnowledge,
    pub second: BlockKnowledge,
    pub prior: BlockKnowledge,
    /// The anchor that a transaction refers to, once it was asked for.
    pub anchor: Option<Option<B256>>,
    /// The anchor that the correct update leads to, and the proof of it.
    pub update_proof: Option<(B256, Proof)>,
}

impl SubmissionView {
    /// What is known of the block in a role.
    pub open spec fn block_in(self, role: Role) -> BlockKnowledge {
        match role {
            Role::Challenged => self.challenged,
            Role::Target => self.target,
            Role::First => self.first,
            Role::Second => self.second,
            Role::Prior => self.prior,
        }
    }

    /// The same, but for what is known of the block in a role.
    pub open spec fn with_block(self, role: Role, block: BlockKnowledge) -> SubmissionView {
        match role {
            Role::Challenged => SubmissionView { challenged: block, ..self },
            Role::Target => SubmissionView { target: block, ..self },
            Role::First => SubmissionView { first: block, ..self },
            Role::Second => SubmissionView { second: block, ..self },
            Role::Prior => SubmissionView { prior: block, ..self },
        }
    }
}

/// What is known before anything was asked for.
pub open spec fn nothing_known() -> BlockKnowledge {
    BlockKnowledge { header: HeaderView::Unknown, blobs: None }
}

/// What is known of a challenge before anything was asked for.
pub open spec fn first_submission(
    fraud: EvidenceView,
    block_nr: u64,
    l1_block_number: u64,
    genesis_anchor: B256,
) -> SubmissionView {
    SubmissionView {
        fraud,
        block_nr,
        l1_block_number,
        genesis_anchor,
        challenged: nothing_known(),
        target: nothing_known(),
        first: nothing_known(),
        second: nothing_known(),
        prior: nothing_known(),
        anchor: None,
        update_proof: None,
    }
}

/// The step by which a header becomes known, unless it is.
pub open spec fn header_step(v: SubmissionView, role: Role, block_nr: u64) -> Option<
    SubmissionStep,
> {
    match v.block_in(role).header {
        HeaderView::Unknown => Some(SubmissionStep::LoadHeader { role, block_nr }),
        HeaderView::Missing => Some(
            SubmissionStep::Fail { error: RunnerError::BlockMissing { block_nr } },
        ),
        HeaderView::Found { .. } => None,
    }
}

/// The step by which the blobs of a block with a known header become known, unless they are.
pub open spec fn blobs_step(v: SubmissionView, role: Role, block_nr: u64) -> Option<
    SubmissionStep,
> {
    if hashes_of(v.block_in(role).header).len() == 0 {
        Some(SubmissionStep::Fail { error: RunnerError::NoBlobHashes { block_nr } })
    } else if v.block_in(role).blobs is None {
        Some(SubmissionStep::FetchBlobs { role })
    } else {
        None
    }
}

/// The hashes of the blobs of a block.
pub open spec fn hashes_of(header: HeaderView) -> Seq<B256> {
    match header {
        HeaderView::Found { block, .. } => block.blobhashes,
        _ => Seq::empty(),
    }
}

/// The first of some steps, or else the last.
pub open spec fn first_step(a: Option<SubmissionStep>, b: SubmissionStep) -> SubmissionStep {
    match a {
        Some(step) => step,
        None => b,
    }
}

/// The step that a challenge of a nullifier takes next.
pub open spec fn nullifier_step(v: SubmissionView, first: u64, second: u64) -> SubmissionStep {
    first_step(
        header_step(v, Role::First, first),
        first_step(
            header_step(v, Role::Second, second),
            first_step(
                blobs_step(v, Role::First, first),
                if first == second {
                    SubmissionStep::Build
                } else {
                    first_step(blobs_step(v, Role::Second, second), SubmissionStep::Build)
                },
            ),
        ),
    )
}

/// The step that a challenge of a transaction takes next.
pub open spec fn transaction_step(
    v: SubmissionView,
    block_nr: u32,
    update_nr: u32,
    is_deposit: bool,
) -> SubmissionStep {
    first_step(
        header_step(v, Role::Prior, block_nr as u64),
        match v.anchor {
            None => SubmissionStep::LoadAnchor { block_nr, update_nr, is_deposit },
            Some(None) => SubmissionStep::Fail {
                error: RunnerError::AnchorMissing { block_nr, update_nr, is_deposit },
            },
            Some(Some(_)) => first_step(
                blobs_step(v, Role::Prior, block_nr as u64),
                SubmissionStep::Build,
            ),
        },
    )
}

/// The anchor before the update that evidence points at.
pub open spec fn prior_anchor_of(fraud: EvidenceView) -> B256 {
    fraud->IncorrectTreeUpdate_prior_anchor
}

/// The anchor that the proof of an update starts from.
pub open spec fn start_of(v: SubmissionView, prior: PriorAnchor) -> B256 {
    if prior is Genesis {
        v.genesis_anchor
    } else {
        prior_anchor_of(v.fraud)
    }
}

/// Where the last anchor of an earlier block cannot be found because its counts have more
/// than 64 bits, why.
pub open spec fn uncountable(header: HeaderView) -> Option<RunnerError> {
    match header {
        HeaderView::Found { block, .. } => if block.num_deposits@ > u64::MAX {
            Some(RunnerError::DepositCountTooLarge)
        } else if block.num_transactions@ > u64::MAX {
            Some(RunnerError::TransactionCountTooLarge)
        } else {
            None
        },
        _ => None,
    }
}

/// The step that a challenge of a tree update takes next.
pub open spec fn tree_update_step(v: SubmissionView, prior: PriorAnchor) -> SubmissionStep {
    let last = if v.update_proof is None {
        SubmissionStep::Prove { start: start_of(v, prior) }
    } else {
        SubmissionStep::Build
    };
    match prior {
        PriorAnchor::EarlierBlock { block_nr } => first_step(
            header_step(v, Role::Prior, block_nr),
            first_step(
                blobs_step(v, Role::Prior, block_nr),
                match uncountable(v.prior.header) {
                    Some(error) => SubmissionStep::Fail { error },
                    None => last,
                },
            ),
        ),
        _ => last,
    }
}

/// The step that follows once the challenged block and its blobs are known.
pub open spec fn planned_step(v: SubmissionView, header: BlockView) -> SubmissionStep {
    match plan_of(v.fraud, header) {
        Err(error) => SubmissionStep::Fail { error },
        Ok(ChallengePlan::Deposit) => SubmissionStep::Build,
        Ok(ChallengePlan::Nullifier { first_block_nr, second_block_nr }) => nullifier_step(
            v,
            first_block_nr,
            second_block_nr,
        ),
        Ok(ChallengePlan::Transaction { anchor_block_nr, anchor_update_nr, is_deposit }) =>
            transaction_step(v, anchor_block_nr, anchor_update_nr, is_deposit),
        Ok(ChallengePlan::TreeUpdate { prior }) => tree_update_step(v, prior),
    }
}

/// The step that is taken next.
pub open spec fn step_of(v: SubmissionView) -> SubmissionStep {
    match v.challenged.header {
        HeaderView::Found { block, .. } => first_step(
            match target_block(v.block_nr) {
                Some(block_nr) => if v.target.header is Unknown {
                    Some(SubmissionStep::LoadHeader { role: Role::Target, block_nr })
                } else {
                    None
                },
                None => None,
            },
            first_step(blobs_step(v, Role::Challenged, v.block_nr), planned_step(v, block)),
        ),
        _ => first_step(
            header_step(v, Role::Challenged, v.block_nr),
            SubmissionStep::Build,
        ),
    }
}

/// Whether the addresses that the next step is found by are within what can be addressed.
pub open spec fn step_in_reach(v: SubmissionView) -> bool {
    &&& v.challenged.header matches HeaderView::Found { block, .. } ==> prior_in_reach(
        v.fraud,
        block,
    )
    &&& v.fraud is IncorrectTreeUpdate ==> (v.prior.header matches HeaderView::Found {
        block,
        ..
    } ==> earlier_in_reach(block))
}

/// A challenge that is being put together.
pub struct Submission {
    fraud: FraudEvidence,
    block_nr: u64,
    l1_block_number: u64,
    genesis_anchor: B256,
    challenged: Header,
    target: Header,
    first: Header,
    second: Header,
    prior: Header,
    challenged_blobs: Option<Vec<Vec<u8>>>,
    target_blobs: Option<Vec<Vec<u8>>>,
    first_blobs: Option<Vec<Vec<u8>>>,
    second_blobs: Option<Vec<Vec<u8>>>,
    prior_blobs: Option<Vec<Vec<u8>>>,
    anchor: Option<Option<B256>>,
    update_proof: Option<(B256, Proof)>,
}

/// What is known of blobs.
pub open spec fn known_blobs(blobs: Option<Vec<Vec<u8>>>) -> Option<Seq<Seq<u8>>> {
    match blobs {
        Some(list) => Some(blob_views(list@)),
        None => None,
    }
}

impl View for Submission {
    type V = SubmissionView;

    closed spec fn view(&self) -> SubmissionView {
        SubmissionView {
            fraud: self.fraud@,
            block_nr: self.block_nr,
            l1_block_number: self.l1_block_number,
            genesis_anchor: self.genesis_anchor,
            challenged: BlockKnowledge {
                header: self.challenged@,
                blobs: known_blobs(self.challenged_blobs),
            },
            target: BlockKnowledge {
                header: self.target@,
                blobs: known_blobs(self.target_blobs),
            },
            first: BlockKnowledge { header: self.first@, blobs: known_blobs(self.first_blobs) },
            second: BlockKnowledge { header: self.second@, blobs: known_blobs(self.second_blobs) },
            prior: BlockKnowledge { header: self.prior@, blobs: known_blobs(self.prior_blobs) },
            anchor: self.anchor,
            update_proof: self.update_proof,
        }
    }
}

/// The step by which a header becomes known, unless it is.
fn want_header(header: &Header, role: Role, block_nr: u64) -> (r: Option<SubmissionStep>)
    ensures
        r == (match header@ {
            HeaderView::Unknown => Some(SubmissionStep::LoadHeader { role, block_nr }),
            HeaderView::Missing => Some(
                SubmissionStep::Fail { error: RunnerError::BlockMissing { block_nr } },
            ),
            HeaderView::Found { .. } => None,
        }),
{
    match header {
        Header::Unknown => Some(SubmissionStep::LoadHeader { role, block_nr }),
        Header::Missing => Some(
            SubmissionStep::Fail { error: RunnerError::BlockMissing { block_nr } },
        ),
        Header::Found { .. } => None,
    }
}

/// The step by which blobs become known, unless they are.
fn want_blobs(
    header: &Header,
    blobs: &Option<Vec<Vec<u8>>>,
    role: Role,
    block_nr: u64,
) -> (r: Option<SubmissionStep>)
    ensures
        r == (if hashes_of(header@).len() == 0 {
            Some(SubmissionStep::Fail { error: RunnerError::NoBlobHashes { block_nr } })
        } else if known_blobs(*blobs) is None {
            Some(SubmissionStep::FetchBlobs { role })
        } else {
            None
        }),
{
    let empty: bool = match header {
        Header::Found { block_data, .. } => block_data.blobhashes.len() == 0,
        _ => true,
    };
    if empty {
        Some(SubmissionStep::Fail { error: RunnerError::NoBlobHashes { block_nr } })
    } else if blobs.is_none() {
        Some(SubmissionStep::FetchBlobs { role })
    } else {
        None
    }
}

impl ChallengerRunner {
    /// Starts to put together the challenge for evidence that was found in a block. Fails,
    /// so that nothing is asked for and nothing submitted, exactly in a dry run.
    pub fn begin_submission(
        &self,
        fraud: FraudEvidence,
        block_nr: u64,
        l1_block_number: u64,
    ) -> (r: Result<Submission, RunnerError>)
        ensures
            r is Err <==> self.spec_dry_run(),
            r matches Ok(submission) ==> submission@ == first_submission(
                fraud@,
                block_nr,
                l1_block_number,
                self.spec_genesis_anchor(),
            ),
            r matches Err(e) ==> e == RunnerError::DryRun,
    {
        if self.is_dry_run() {
            Err(RunnerError::DryRun)
        } else {
            Ok(Submission::new(fraud, block_nr, l1_block_number, self.genesis_anchor()))
        }
    }
}

impl Submission {
    /// Starts to put together the challenge for evidence that was found in a block.
    fn new(
        fraud: FraudEvidence,
        block_nr: u64,
        l1_block_number: u64,
        genesis_anchor: B256,
    ) -> (r: Submission)
        ensures
            r@ == first_submission(fraud@, block_nr, l1_block_number, genesis_anchor),
    {
        Submission {
            fraud,
            block_nr,
            l1_block_number,
            genesis_anchor,
            challenged: Header::Unknown,
            target: Header::Unknown,
            first: Header::Unknown,
            second: Header::Unknown,
            prior: Header::Unknown,
            challenged_blobs: None,
            target_blobs: None,
            first_blobs: None,
            second_blobs: None,
            prior_blobs: None,
            anchor: None,
            update_proof: None,
        }
    }

    /// The evidence.
    pub fn fraud(&self) -> (r: &FraudEvidence)
        ensures
            r@ == self@.fraud,
    {
        &self.fraud
    }

    /// What is to be done next.
    pub fn next_step(&self) -> (r: SubmissionStep)
        requires
            step_in_reach(self@),
        ensures
            r == step_of(self@),
    {
        let block_data = match &self.challenged {
            Header::Found { block_data, .. } => block_data,
            Header::Unknown => {
                return SubmissionStep::LoadHeader {
                    role: Role::Challenged,
                    block_nr: self.block_nr,
                };
            },
            Header::Missing => {
                return SubmissionStep::Fail {
                    error: RunnerError::BlockMissing { block_nr: self.block_nr },
                };
            },
        };
        if self.block_nr > 0 {
            match &self.target {
                Header::Unknown => {
                    return SubmissionStep::LoadHeader {
                        role: Role::Target,
                        block_nr: self.block_nr - 1,
                    };
                },
                _ => {},
            }
        }
        match want_blobs(
            &self.challenged,
            &self.challenged_blobs,
            Role::Challenged,
            self.block_nr,
        ) {
            Some(step) => {
                return step;
            },
            None => {},
        }
        match plan_challenge(&self.fraud, block_data) {
            Err(error) => SubmissionStep::Fail { error },
            Ok(ChallengePlan::Deposit) => SubmissionStep::Build,
            Ok(ChallengePlan::Nullifier { first_block_nr, second_block_nr }) => {
                self.next_for_nullifier(first_block_nr, second_block_nr)
            },
            Ok(ChallengePlan::Transaction { anchor_block_nr, anchor_update_nr, is_deposit }) => {
                self.next_for_transaction(anchor_block_nr, anchor_update_nr, is_deposit)
            },
            Ok(ChallengePlan::TreeUpdate { prior }) => self.next_for_tree_update(prior),
        }
    }

    /// What a challenge of a nullifier takes next.
    fn next_for_nullifier(&self, first: u64, second: u64) -> (r: SubmissionStep)
        ensures
            r == nullifier_step(self@, first, second),
    {
        match want_header(&self.first, Role::First, first) {
            Some(step) => {
                return step;
            },
            None => {},
        }
        match want_header(&self.second, Role::Second, second) {
            Some(step) => {
                return step;
            },
            None => {},
        }
        match want_blobs(&self.first, &self.first_blobs, Role::First, first) {
            Some(step) => {
                return step;
            },
            None => {},
        }
        if first != second {
            match want_blobs(&self.second, &self.second_blobs, Role::Second, second) {
                Some(step) => {
                    return step;
                },
                None => {},
            }
        }
        SubmissionStep::Build
    }

    /// What a challenge of a transaction takes next.
    fn next_for_transaction(&self, block_nr: u32, update_nr: u32, is_deposit: bool) -> (r:
        SubmissionStep)
        ensures
            r == transaction_step(self@, block_nr, update_nr, is_deposit),
    {
        match want_header(&self.prior, Role::Prior, block_nr as u64) {
            Some(step) => {
                return step;
            },
            None => {},
        }
        match self.anchor {
            None => {
                return SubmissionStep::LoadAnchor { block_nr, update_nr, is_deposit };
            },
            Some(None) => {
                return SubmissionStep::Fail {
                    error: RunnerError::AnchorMissing { block_nr, update_nr, is_deposit },
                };
            },
            Some(Some(_)) => {},
        }
        match want_blobs(&self.prior, &self.prior_blobs, Role::Prior, block_nr as u64) {
            Some(step) => step,
            None => SubmissionStep::Build,
        }
    }

    /// What a challenge of a tree update takes next.
    fn next_for_tree_update(&self, prior: PriorAnchor) -> (r: SubmissionStep)
        requires
            step_in_reach(self@),
            self@.fraud is IncorrectTreeUpdate,
        ensures
            r == tree_update_step(self@, prior),
    {
        match prior {
            PriorAnchor::EarlierBlock { block_nr } => {
                match want_header(&self.prior, Role::Prior, block_nr) {
                    Some(step) => {
                        return step;
                    },
                    None => {},
                }
                match want_blobs(&self.prior, &self.prior_blobs, Role::Prior, block_nr) {
                    Some(step) => {
                        return step;
                    },
                    None => {},
                }
                match &self.prior {
                    Header::Found { block_data, .. } => match earlier_anchor_index(block_data) {
                        Ok(_) => {},
                        Err(error) => {
                            return SubmissionStep::Fail { error };
                        },
                    },
                    _ => {},
                }
            },
            _ => {},
        }
        match self.update_proof {
            Some(_) => SubmissionStep::Build,
            None => SubmissionStep::Prove {
                start: starting_anchor(prior, self.prior_anchor(), self.genesis_anchor),
            },
        }
    }

    /// The anchor before the update that the evidence points at.
    fn prior_anchor(&self) -> (r: B256)
        requires
            self@.fraud is IncorrectTreeUpdate,
        ensures
            r == prior_anchor_of(self@.fraud),
    {
        match &self.fraud {
            FraudEvidence::IncorrectTreeUpdate { prior_anchor, .. } => *prior_anchor,
            _ => self.genesis_anchor,
        }
    }

    /// Takes in what came of loading the header of the block in a role.
    pub fn take_header(&mut self, role: Role, reply: Option<(BlockData, u64)>)
        ensures
            final(self)@ == with_header(
                old(self)@,
                role,
                match reply {
                    Some((block_data, l1_block_number)) => Some((block_data@, l1_block_number)),
                    None => None,
                },
            ),
    {
        let header = match reply {
            Some((block_data, l1_block_number)) => Header::Found { block_data, l1_block_number },
            None => Header::Missing,
        };
        match role {
            Role::Challenged => {
                self.challenged = header;
            },
            Role::Target => {
                self.target = header;
            },
            Role::First => {
                self.first = header;
            },
            Role::Second => {
                self.second = header;
            },
            Role::Prior => {
                self.prior = header;
            },
        }
    }

    /// The first layer's block that holds the blobs of the block in a role, and the hashes
    /// of the blobs.
    pub fn blob_request(&self, role: Role) -> (r: (u64, Vec<B256>))
        requires
            self@.block_in(role).header is Found,
        ensures
            r.0 == blob_source(self@, role),
            r.1@ == hashes_of(self@.block_in(role).header),
    {
        let header = match role {
            Role::Challenged => &self.challenged,
            Role::Target => &self.target,
            Role::First => &self.first,
            Role::Second => &self.second,
            Role::Prior => &self.prior,
        };
        match header {
            Header::Found { block_data, l1_block_number } => {
                let source: u64 = match role {
                    Role::Challenged => self.l1_block_number,
                    _ => *l1_block_number,
                };
                let hashes = block_data.blobhashes.clone();
                assert(hashes@ =~= block_data.blobhashes@);
                (source, hashes)
            },
            _ => (0, Vec::new()),
        }
    }

    /// Takes in the blobs of the block in a role.
    pub fn take_blobs(&mut self, role: Role, blobs: Vec<Vec<u8>>)
        ensures
            final(self)@ == with_blobs(old(self)@, role, blob_views(blobs@)),
    {
        match role {
            Role::Challenged => {
                self.challenged_blobs = Some(blobs);
            },
            Role::Target => {
                self.target_blobs = Some(blobs);
            },
            Role::First => {
                self.first_blobs = Some(blobs);
            },
            Role::Second => {
                self.second_blobs = Some(blobs);
            },
            Role::Prior => {
                self.prior_blobs = Some(blobs);
            },
        }
    }

    /// Takes in what came of loading the anchor.
    pub fn take_anchor(&mut self, anchor: Option<B256>)
        ensures
            final(self)@ == (SubmissionView { anchor: Some(anchor), ..old(self)@ }),
    {
        self.anchor = Some(anchor);
    }

    /// Takes in the anchor that the correct update leads to, and the proof of it.
    pub fn take_proof(&mut self, true_anchor: B256, zk_proof: Proof)
        ensures
            final(self)@ == (SubmissionView {
                update_proof: Some((true_anchor, zk_proof)),
                ..old(self)@
            }),
    {
        self.update_proof = Some((true_anchor, zk_proof));
    }
}

/// What is known once the header of the block in a role was asked for.
pub open spec fn with_header(
    v: SubmissionView,
    role: Role,
    reply: Option<(BlockView, u64)>,
) -> SubmissionView {
    let header = match reply {
        Some((block, l1_block_number)) => HeaderView::Found { block, l1_block_number },
        None => HeaderView::Missing,
    };
    v.with_block(role, BlockKnowledge { header, ..v.block_in(role) })
}

/// What is known once the blobs of the block in a role are there.
pub open spec fn with_blobs(v: SubmissionView, role: Role, blobs: Seq<Seq<u8>>) -> SubmissionView {
    v.with_block(role, BlockKnowledge { blobs: Some(blobs), ..v.block_in(role) })
}

/// The first layer's block that holds the blobs of the block in a role.
pub open spec fn blob_source(v: SubmissionView, role: Role) -> u64 {
    match (role, v.block_in(role).header) {
        (Role::Challenged, _) => v.l1_block_number,
        (_, HeaderView::Found { l1_block_number, .. }) => l1_block_number,
        _ => 0,
    }
}

/// A challenge, whichever it is.
#[derive(Debug)]
pub enum Challenge {
    Deposit { params: DepositChallengeParams },
    Nullifier { params: NullifierChallengeParams },
    Transaction { params: TransactionChallengeParams },
    TreeUpdate { params: TreeUpdateChallengeParams },
}

/// What a challenge says, whichever it is.
pub enum ChallengeView {
    Deposit { challenge: DepositChallenge },
    Nullifier { challenge: NullifierChallenge },
    Transaction { challenge: TransactionChallenge },
    TreeUpdate { challenge: TreeUpdateChallenge },
}

impl View for Challenge {
    type V = ChallengeView;

    open spec fn view(&self) -> ChallengeView {
        match *self {
            Challenge::Deposit { params } => ChallengeView::Deposit { challenge: params@ },
            Challenge::Nullifier { params } => ChallengeView::Nullifier { challenge: params@ },
            Challenge::Transaction { params } => ChallengeView::Transaction { challenge: params@ },
            Challenge::TreeUpdate { params } => ChallengeView::TreeUpdate { challenge: params@ },
        }
    }
}

/// What came of building a challenge.
pub open spec fn outcome_view(r: Result<Challenge, RunnerError>) -> Result<
    ChallengeView,
    RunnerError,
> {
    match r {
        Ok(challenge) => Ok(challenge@),
        Err(e) => Err(e),
    }
}

/// The header of a block, where it is known.
pub open spec fn block_of(header: HeaderView) -> BlockView
    recommends
        header is Found,
{
    header->Found_block
}

/// Whether a list is that of the blobs of a block with their hashes.
pub open spec fn are_blobs_of(list: Seq<BlobWithHash>, block: BlockKnowledge) -> bool {
    block.blobs matches Some(blobs) && attached(list, blobs, hashes_of(block.header))
}

/// Whether a header is that of the block to roll back to: the one before the challenged
/// block, or that of the block before the first where its header is not kept.
pub open spec fn is_target(v: SubmissionView, header: BlockView) -> bool {
    match (target_block(v.block_nr), v.target.header) {
        (Some(_), HeaderView::Found { block, .. }) => header == block,
        _ => is_first_header(header),
    }
}

/// The field of the anchor that a challenged update goes on from.
pub open spec fn prior_index(v: SubmissionView, prior: PriorAnchor) -> nat {
    match prior {
        PriorAnchor::SameBlock { field_index } => field_index as nat,
        PriorAnchor::EarlierBlock { .. } => last_anchor_index(block_of(v.prior.header)),
        PriorAnchor::Genesis => 0,
    }
}

/// Whether a list is that of the blobs that hold the anchor which a challenged update goes on
/// from. That before the first block is in none.
pub open spec fn hold_prior_anchor(
    list: Seq<BlobWithHash>,
    v: SubmissionView,
    prior: PriorAnchor,
) -> bool {
    match prior {
        PriorAnchor::SameBlock { .. } => are_blobs_of(list, v.challenged),
        PriorAnchor::EarlierBlock { .. } => are_blobs_of(list, v.prior),
        PriorAnchor::Genesis => list.len() == 0,
    }
}

/// What came of building a deposit challenge.
pub open spec fn deposit_outcome(r: Result<DepositChallenge, ChallengeError>) -> Result<
    ChallengeView,
    RunnerError,
> {
    match r {
        Ok(challenge) => Ok(ChallengeView::Deposit { challenge }),
        Err(e) => Err(RunnerError::Challenge(e)),
    }
}

/// What came of building a nullifier challenge.
pub open spec fn nullifier_outcome(r: Result<NullifierChallenge, ChallengeError>) -> Result<
    ChallengeView,
    RunnerError,
> {
    match r {
        Ok(challenge) => Ok(ChallengeView::Nullifier { challenge }),
        Err(e) => Err(RunnerError::Challenge(e)),
    }
}

/// What came of building a transaction challenge.
pub open spec fn transaction_outcome(r: Result<TransactionChallenge, ChallengeError>) -> Result<
    ChallengeView,
    RunnerError,
> {
    match r {
        Ok(challenge) => Ok(ChallengeView::Transaction { challenge }),
        Err(e) => Err(RunnerError::Challenge(e)),
    }
}

/// What came of building a challenge of a tree update.
pub open spec fn tree_update_outcome(r: Result<TreeUpdateChallenge, RunnerError>) -> Result<
    ChallengeView,
    RunnerError,
> {
    match r {
        Ok(challenge) => Ok(ChallengeView::TreeUpdate { challenge }),
        Err(e) => Err(e),
    }
}

/// Whether an outcome is that of building the challenge from what is known, `blobs` being
/// those of the challenged block, `others` those of the first block or of the block with the
/// prior anchor, `second` those of the second block, and `target` the header of the block to
/// roll back to.
pub open spec fn built_from(
    v: SubmissionView,
    outcome: Result<ChallengeView, RunnerError>,
    blobs: Seq<BlobWithHash>,
    others: Seq<BlobWithHash>,
    second: Seq<BlobWithHash>,
    target: BlockView,
) -> bool {
    match plan_of(v.fraud, block_of(v.challenged.header)) {
        Err(_) => false,
        Ok(ChallengePlan::Deposit) => outcome == deposit_outcome(
            deposit_challenge(v.fraud, blobs, target),
        ),
        Ok(ChallengePlan::Nullifier { first_block_nr, second_block_nr }) => {
            let second_source = if first_block_nr == second_block_nr {
                v.first.blobs
            } else {
                v.second.blobs
            };
            &&& are_blobs_of(others, v.first)
            &&& are_blobs_of(
                second,
                BlockKnowledge { header: v.second.header, blobs: second_source },
            )
            &&& outcome == nullifier_outcome(
                nullifier_challenge(
                    v.fraud,
                    others,
                    second,
                    block_of(v.first.header),
                    block_of(v.second.header),
                    target,
                ),
            )
        },
        Ok(ChallengePlan::Transaction { anchor_block_nr, anchor_update_nr, is_deposit }) => {
            let num_deposits = block_of(v.prior.header).num_deposits@;
            &&& are_blobs_of(others, v.prior)
            &&& v.anchor matches Some(Some(anchor))
            &&& outcome == (if num_deposits > u64::MAX {
                Err(RunnerError::DepositCountTooLarge)
            } else {
                transaction_outcome(
                    transaction_challenge(
                        v.fraud,
                        blobs,
                        anchor,
                        block_of(v.prior.header),
                        others,
                        anchor_address(anchor_update_nr as nat, num_deposits, is_deposit),
                        target,
                    ),
                )
            })
        },
        Ok(ChallengePlan::TreeUpdate { prior }) => {
            &&& hold_prior_anchor(others, v, prior)
            &&& v.update_proof matches Some((true_anchor, zk_proof))
            &&& outcome == tree_update_outcome(
                finished_tree_update(
                    v.fraud,
                    blobs,
                    prior is Genesis,
                    start_of(v, prior),
                    others,
                    prior_index(v, prior),
                    true_anchor,
                    zk_proof,
                    target,
                ),
            )
        },
    }
}

/// Whether an outcome is that of building the challenge from what is known.
pub open spec fn is_outcome(v: SubmissionView, outcome: Result<ChallengeView, RunnerError>) -> bool {
    exists|
        blobs: Seq<BlobWithHash>,
        others: Seq<BlobWithHash>,
        second: Seq<BlobWithHash>,
        target: BlockView,
    | #[trigger]
        built_from(v, outcome, blobs, others, second, target) && are_blobs_of(blobs, v.challenged)
            && is_target(v, target)
}

/// Whether the fields that a challenge proves can be addressed.
pub open spec fn build_in_reach(v: SubmissionView) -> bool {
    &&& challenged_deposit(v.fraud) matches Ok((_, nr)) ==> deposit_leaf_address(nr as nat)
        <= usize::MAX
    &&& v.fraud matches EvidenceView::NullifierDoubleSpend {
        first_tx_number,
        second_tx_number,
        first_which,
        second_which,
        ..
    } ==> {
        &&& first_which < 2
        &&& second_which < 2
        &&& block_of(v.first.header).num_deposits@ <= u64::MAX ==> nullifier_address(
            first_tx_number as nat,
            block_of(v.first.header).num_deposits@,
            first_which as nat,
        ) <= usize::MAX
        &&& block_of(v.second.header).num_deposits@ <= u64::MAX ==> nullifier_address(
            second_tx_number as nat,
            block_of(v.second.header).num_deposits@,
            second_which as nat,
        ) <= usize::MAX
    }
    &&& challenged_transaction(v.fraud) matches Ok((block, tx_nr)) ==> block.num_deposits@
        <= u64::MAX ==> tx_address(tx_nr as nat, block.num_deposits@) + 14 <= usize::MAX
    &&& plan_of(v.fraud, block_of(v.challenged.header)) matches Ok(
        ChallengePlan::Transaction { anchor_update_nr, is_deposit, .. },
    ) ==> block_of(v.prior.header).num_deposits@ <= u64::MAX ==> anchor_address(
        anchor_update_nr as nat,
        block_of(v.prior.header).num_deposits@,
        is_deposit,
    ) <= usize::MAX
    &&& challenged_update(v.fraud) matches Ok((block, _, is_tx)) ==> {
        &&& is_tx && block.num_deposits@ <= u64::MAX ==> tx_address(0, block.num_deposits@) + 15
            <= usize::MAX
        &&& update_in_reach(v.fraud)
    }
}

/// No blobs.
fn no_blobs<'a>() -> (r: Vec<BlobWithHash<'a>>)
    ensures
        r@.len() == 0,
{
    Vec::new()
}

/// The header of a block and its blobs with their hashes, where both are known.
fn header_and_blobs<'a>(header: &'a Header, blobs: &'a Option<Vec<Vec<u8>>>) -> (r: Option<
    (&'a BlockData, Vec<BlobWithHash<'a>>),
>)
    ensures
        r is Some <==> (header@ is Found && blobs is Some),
        r matches Some(known) ==> known.0@ == block_of(header@) && are_blobs_of(
            known.1@,
            (BlockKnowledge { header: header@, blobs: known_blobs(*blobs) }),
        ),
{
    match (header, blobs) {
        (Header::Found { block_data, .. }, Some(list)) => Some(
            (block_data, attach_hashes(list.as_slice(), block_data.blobhashes.as_slice())),
        ),
        _ => None,
    }
}

impl Submission {
    /// The header of the block to roll back to.
    fn target_header(&self) -> (r: BlockData)
        ensures
            is_target(self@, r@),
    {
        if self.block_nr > 0 {
            match &self.target {
                Header::Found { block_data, .. } => block_data.clone(),
                _ => default_block_data(),
            }
        } else {
            default_block_data()
        }
    }

    /// Builds the challenge, once everything is known that it takes.
    pub fn build(&self, builder: &ChallengeBuilder) -> (r: Result<Challenge, RunnerError>)
        requires
            step_in_reach(self@),
            step_of(self@) is Build,
            build_in_reach(self@),
        ensures
            is_outcome(self@, outcome_view(r)),
    {
        let (block_data, blobs) = match header_and_blobs(&self.challenged, &self.challenged_blobs) {
            Some(known) => known,
            None => {
                return Err(RunnerError::BlockMissing { block_nr: self.block_nr });
            },
        };
        let target = self.target_header();
        let ghost target_view = target@;
        match plan_challenge(&self.fraud, block_data) {
            Err(e) => Err(e),
            Ok(ChallengePlan::Deposit) => {
                let r = match builder.build_deposit_challenge(&self.fraud, blobs.as_slice(), target) {
                    Ok(params) => Ok(Challenge::Deposit { params }),
                    Err(e) => Err(RunnerError::Challenge(e)),
                };
                assert(built_from(
                    self@,
                    outcome_view(r),
                    blobs@,
                    Seq::empty(),
                    Seq::empty(),
                    target_view,
                ));
                r
            },
            Ok(ChallengePlan::Nullifier { first_block_nr, second_block_nr }) => {
                let (first_data, first_blobs) = match header_and_blobs(
                    &self.first,
                    &self.first_blobs,
                ) {
                    Some(known) => known,
                    None => {
                        return Err(RunnerError::BlockMissing { block_nr: first_block_nr });
                    },
                };
                let second_source = if first_block_nr == second_block_nr {
                    &self.first_blobs
                } else {
                    &self.second_blobs
                };
                let (second_data, second_blobs) = match header_and_blobs(
                    &self.second,
                    second_source,
                ) {
                    Some(known) => known,
                    None => {
                        return Err(RunnerError::BlockMissing { block_nr: second_block_nr });
                    },
                };
                let r = match builder.build_nullifier_challenge(
                    &self.fraud,
                    first_blobs.as_slice(),
                    second_blobs.as_slice(),
                    first_data.clone(),
                    second_data.clone(),
                    target,
                ) {
                    Ok(params) => Ok(Challenge::Nullifier { params }),
                    Err(e) => Err(RunnerError::Challenge(e)),
                };
                assert(built_from(
                    self@,
                    outcome_view(r),
                    blobs@,
                    first_blobs@,
                    second_blobs@,
                    target_view,
                ));
                r
            },
            Ok(ChallengePlan::Transaction { anchor_block_nr, anchor_update_nr, is_deposit }) => {
                let (prior_data, prior_blobs) = match header_and_blobs(
                    &self.prior,
                    &self.prior_blobs,
                ) {
                    Some(known) => known,
                    None => {
                        return Err(RunnerError::BlockMissing { block_nr: anchor_block_nr as u64 });
                    },
                };
                let anchor = match self.anchor {
                    Some(Some(anchor)) => anchor,
                    _ => B256::zero(),
                };
                let r = match transaction_anchor_index(prior_data, anchor_update_nr, is_deposit) {
                    Ok(index) => match builder.build_transaction_challenge_multi_blob(
                        &self.fraud,
                        blobs.as_slice(),
                        anchor,
                        prior_data.clone(),
                        prior_blobs.as_slice(),
                        index,
                        target,
                    ) {
                        Ok(params) => Ok(Challenge::Transaction { params }),
                        Err(e) => Err(RunnerError::Challenge(e)),
                    },
                    Err(e) => Err(e),
                };
                assert(built_from(
                    self@,
                    outcome_view(r),
                    blobs@,
                    prior_blobs@,
                    Seq::empty(),
                    target_view,
                ));
                r
            },
            Ok(ChallengePlan::TreeUpdate { prior }) => self.build_tree_update(
                builder,
                prior,
                blobs,
                target,
            ),
        }
    }

    /// Builds the challenge of a tree update.
    fn build_tree_update(
        &self,
        builder: &ChallengeBuilder,
        prior: PriorAnchor,
        blobs: Vec<BlobWithHash>,
        target: BlockData,
    ) -> (r: Result<Challenge, RunnerError>)
        requires
            step_in_reach(self@),
            step_of(self@) is Build,
            build_in_reach(self@),
            self@.challenged.header is Found,
            plan_of(self@.fraud, block_of(self@.challenged.header)) == Ok::<_, RunnerError>(
                ChallengePlan::TreeUpdate { prior },
            ),
            are_blobs_of(blobs@, self@.challenged),
            is_target(self@, target@),
        ensures
            is_outcome(self@, outcome_view(r)),
    {
        let ghost target_view = target@;
        let (prior_blobs, index): (Vec<BlobWithHash>, usize) = match prior {
            PriorAnchor::SameBlock { field_index } => match header_and_blobs(
                &self.challenged,
                &self.challenged_blobs,
            ) {
                Some((_, same)) => (same, field_index),
                None => {
                    return Err(RunnerError::BlockMissing { block_nr: self.block_nr });
                },
            },
            PriorAnchor::EarlierBlock { block_nr } => match header_and_blobs(
                &self.prior,
                &self.prior_blobs,
            ) {
                Some((prior_data, earlier)) => match earlier_anchor_index(prior_data) {
                    Ok(index) => (earlier, index),
                    Err(e) => {
                        return Err(e);
                    },
                },
                None => {
                    return Err(RunnerError::BlockMissing { block_nr });
                },
            },
            PriorAnchor::Genesis => (no_blobs(), 0),
        };
        let from_genesis: bool = match prior {
            PriorAnchor::Genesis => true,
            _ => false,
        };
        let start = starting_anchor(prior, self.prior_anchor(), self.genesis_anchor);
        let (true_anchor, zk_proof) = match self.update_proof {
            Some(made) => made,
            None => {
                return Err(RunnerError::AnchorMismatch);
            },
        };
        let r = match finish_tree_update(
            builder,
            &self.fraud,
            blobs.as_slice(),
            from_genesis,
            start,
            prior_blobs.as_slice(),
            index,
            true_anchor,
            zk_proof,
            target,
        ) {
            Ok(params) => Ok(Challenge::TreeUpdate { params }),
            Err(e) => Err(e),
        };
        assert(built_from(
            self@,
            outcome_view(r),
            blobs@,
            prior_blobs@,
            Seq::empty(),
            target_view,
        ));
        r
    }
}

/// How much is not known yet.
pub open spec fn unknowns(v: SubmissionView) -> nat {
    unknown_of(v.challenged) + unknown_of(v.target) + unknown_of(v.first) + unknown_of(v.second)
        + unknown_of(v.prior) + (if v.anchor is None {
        1nat
    } else {
        0
    }) + (if v.update_proof is None {
        1nat
    } else {
        0
    })
}

/// How much of a block is not known yet.
pub open spec fn unknown_of(block: BlockKnowledge) -> nat {
    (if block.header is Unknown {
        1nat
    } else {
        0
    }) + (if block.blobs is None {
        1nat
    } else {
        0
    })
}

/// Whether what a step asks for is not known yet.
pub open spec fn asks_for_unknown(v: SubmissionView, step: SubmissionStep) -> bool {
    match step {
        SubmissionStep::LoadHeader { role, .. } => v.block_in(role).header is Unknown,
        SubmissionStep::FetchBlobs { role } => v.block_in(role).blobs is None,
        SubmissionStep::LoadAnchor { .. } => v.anchor is None,
        SubmissionStep::Prove { .. } => v.update_proof is None,
        SubmissionStep::Build => true,
        SubmissionStep::Fail { .. } => true,
    }
}

/// A header or the blobs of a block are asked for only where they are not known.
proof fn lemma_block_steps(v: SubmissionView, role: Role, block_nr: u64)
    ensures
        header_step(v, role, block_nr) matches Some(step) ==> asks_for_unknown(v, step),
        blobs_step(v, role, block_nr) matches Some(step) ==> asks_for_unknown(v, step),
{
}

/// The same for the steps of a challenge of a nullifier.
proof fn lemma_nullifier_step(v: SubmissionView, first: u64, second: u64)
    ensures
        asks_for_unknown(v, nullifier_step(v, first, second)),
{
    lemma_block_steps(v, Role::First, first);
    lemma_block_steps(v, Role::Second, second);
}

/// The same for the steps of a challenge of a transaction.
proof fn lemma_transaction_step(
    v: SubmissionView,
    block_nr: u32,
    update_nr: u32,
    is_deposit: bool,
)
    ensures
        asks_for_unknown(v, transaction_step(v, block_nr, update_nr, is_deposit)),
{
    lemma_block_steps(v, Role::Prior, block_nr as u64);
}

/// The same for the steps of a challenge of a tree update.
proof fn lemma_tree_update_step(v: SubmissionView, prior: PriorAnchor)
    ensures
        asks_for_unknown(v, tree_update_step(v, prior)),
{
    match prior {
        PriorAnchor::EarlierBlock { block_nr } => {
            lemma_block_steps(v, Role::Prior, block_nr);
        },
        _ => {},
    }
}

/// The same for the steps that follow once the challenged block is known.
proof fn lemma_planned_step(v: SubmissionView, header: BlockView)
    ensures
        asks_for_unknown(v, planned_step(v, header)),
{
    match plan_of(v.fraud, header) {
        Err(_) => {},
        Ok(ChallengePlan::Deposit) => {},
        Ok(ChallengePlan::Nullifier { first_block_nr, second_block_nr }) => {
            lemma_nullifier_step(v, first_block_nr, second_block_nr);
        },
        Ok(ChallengePlan::Transaction { anchor_block_nr, anchor_update_nr, is_deposit }) => {
            lemma_transaction_step(v, anchor_block_nr, anchor_update_nr, is_deposit);
        },
        Ok(ChallengePlan::TreeUpdate { prior }) => {
            lemma_tree_update_step(v, prior);
        },
    }
}

/// Every step asks for what is not known yet.
pub proof fn law_nothing_is_asked_for_twice(v: SubmissionView)
    ensures
        asks_for_unknown(v, step_of(v)),
{
    lemma_block_steps(v, Role::Challenged, v.block_nr);
    match v.challenged.header {
        HeaderView::Found { block, .. } => {
            lemma_planned_step(v, block);
        },
        _ => {},
    }
}

/// Where one of two things that are not known of a block becomes known, one is left.
proof fn lemma_block_reply(v: SubmissionView, role: Role, block: BlockKnowledge)
    requires
        unknown_of(block) < unknown_of(v.block_in(role)),
    ensures
        unknowns(v.with_block(role, block)) < unknowns(v),
{
    match role {
        Role::Challenged => {},
        Role::Target => {},
        Role::First => {},
        Role::Second => {},
        Role::Prior => {},
    }
}

/// Every reply makes less of what is not known: a challenge is built or given up after
/// twelve replies at most.
pub proof fn law_every_reply_is_progress(
    v: SubmissionView,
    header: Option<(BlockView, u64)>,
    blobs: Seq<Seq<u8>>,
    anchor: Option<B256>,
    made: (B256, Proof),
)
    ensures
        step_of(v) matches SubmissionStep::LoadHeader { role, .. } ==> unknowns(
            with_header(v, role, header),
        ) < unknowns(v),
        step_of(v) matches SubmissionStep::FetchBlobs { role } ==> unknowns(
            with_blobs(v, role, blobs),
        ) < unknowns(v),
        step_of(v) is LoadAnchor ==> unknowns(SubmissionView { anchor: Some(anchor), ..v })
            < unknowns(v),
        step_of(v) is Prove ==> unknowns(SubmissionView { update_proof: Some(made), ..v })
            < unknowns(v),
        unknowns(v) <= 12,
{
    law_nothing_is_asked_for_twice(v);
    let step = step_of(v);
    match step {
        SubmissionStep::LoadHeader { role, .. } => {
            let before = v.block_in(role);
            let found = with_header(v, role, header).block_in(role);
            assert(found.header !is Unknown && found.blobs == before.blobs);
            lemma_block_reply(v, role, found);
            assert(with_header(v, role, header) == v.with_block(role, found));
        },
        SubmissionStep::FetchBlobs { role } => {
            let before = v.block_in(role);
            let found = with_blobs(v, role, blobs).block_in(role);
            assert(found.blobs is Some && found.header == before.header);
            lemma_block_reply(v, role, found);
            assert(with_blobs(v, role, blobs) == v.with_block(role, found));
        },
        _ => {},
    }
}

/// What is asked for is what the evidence names. The challenged block and the one before it come
/// by their numbers; the two blocks of a double spend by those in the evidence; the block of an
/// anchor by the number in the evidence; and the anchor that a transaction refers to by its
/// block, its update and its kind. The proof of an update starts from the anchor that the
/// evidence says it went on from, or from the one before the first block.
pub proof fn law_steps_ask_for_what_the_evidence_names(v: SubmissionView)
    ensures
        match step_of(v) {
            SubmissionStep::LoadHeader { role, block_nr } => match role {
                Role::Challenged => block_nr == v.block_nr,
                Role::Target => block_nr + 1 == v.block_nr,
                Role::First => v.fraud matches EvidenceView::NullifierDoubleSpend {
                    first_block_nr,
                    ..
                } && block_nr == first_block_nr,
                Role::Second => v.fraud matches EvidenceView::NullifierDoubleSpend {
                    second_block_nr,
                    ..
                } && block_nr == second_block_nr,
                Role::Prior => match v.fraud {
                    EvidenceView::InvalidTransactionProof { anchor_block_nr, .. } => block_nr
                        == anchor_block_nr,
                    EvidenceView::InvalidAnchorReference { anchor_block_nr, .. } => block_nr
                        == anchor_block_nr,
                    EvidenceView::MissingEthKeyAuth { anchor_block_nr, .. } => block_nr
                        == anchor_block_nr,
                    EvidenceView::IncorrectTreeUpdate {
                        prior_anchor_block_nr,
                        prior_update_nr,
                        ..
                    } => prior_anchor_block_nr == Some(block_nr) && prior_update_nr is None,
                    _ => false,
                },
            },
            SubmissionStep::LoadAnchor { block_nr, update_nr, is_deposit } => match v.fraud {
                EvidenceView::InvalidTransactionProof {
                    anchor_block_nr,
                    anchor_update_nr,
                    is_deposit: kind,
                    ..
                } => block_nr == anchor_block_nr && update_nr == anchor_update_nr && is_deposit
                    == kind,
                EvidenceView::InvalidAnchorReference {
                    anchor_block_nr,
                    anchor_update_nr,
                    is_deposit: kind,
                    ..
                } => block_nr == anchor_block_nr && update_nr == anchor_update_nr && is_deposit
                    == kind,
                EvidenceView::MissingEthKeyAuth {
                    anchor_block_nr,
                    anchor_update_nr,
                    is_deposit: kind,
                    ..
                } => block_nr == anchor_block_nr && update_nr == anchor_update_nr && is_deposit
                    == kind,
                _ => false,
            },
            SubmissionStep::Prove { start } => v.fraud matches EvidenceView::IncorrectTreeUpdate {
                prior_anchor,
                prior_anchor_block_nr,
                prior_update_nr,
                ..
            } && start == (if prior_anchor_block_nr is None && prior_update_nr is None {
                v.genesis_anchor
            } else {
                prior_anchor
            }),
            _ => true,
        },
{
}

/// The challenge is built only once everything that it takes is there: the header and the blobs of
/// the challenged block, the header of the one before it or the answer that there is none, and
/// what the evidence asks for besides.
pub proof fn law_build_waits_for_everything(v: SubmissionView)
    requires
        step_of(v) is Build,
    ensures
        v.challenged.header is Found,
        v.challenged.blobs is Some,
        v.block_nr > 0 ==> !(v.target.header is Unknown),
        v.fraud matches EvidenceView::NullifierDoubleSpend { first_block_nr, second_block_nr, .. } ==> {
            &&& v.first.header is Found
            &&& v.second.header is Found
            &&& v.first.blobs is Some
            &&& first_block_nr != second_block_nr ==> v.second.blobs is Some
        },
        v.fraud is InvalidTransactionProof || v.fraud is InvalidAnchorReference
            || v.fraud is MissingEthKeyAuth ==> {
            &&& v.prior.header is Found
            &&& v.prior.blobs is Some
            &&& v.anchor matches Some(Some(_))
        },
        v.fraud matches EvidenceView::IncorrectTreeUpdate {
            prior_anchor_block_nr,
            prior_update_nr,
            merkle_data,
            ..
        } ==> {
            &&& merkle_data is Some
            &&& v.update_proof is Some
            &&& prior_anchor_block_nr is Some && prior_update_nr is None ==> v.prior.header is Found
                && v.prior.blobs is Some
        },
{
}

/// Giving up has its reason: a header or an anchor that is needed is not kept, a block has no
/// blobs, its counts have more than 64 bits, or the evidence lacks what a proof is made from or
/// names an update that is not before its own. That the block to roll back to is not kept is no
/// reason.
pub proof fn law_giving_up_has_its_reason(v: SubmissionView)
    requires
        step_of(v) is Fail,
    ensures
        match step_of(v)->Fail_error {
            RunnerError::BlockMissing { block_nr } => {
                ||| v.challenged.header is Missing && block_nr == v.block_nr
                ||| v.first.header is Missing || v.second.header is Missing || v.prior.header is Missing
            },
            RunnerError::NoBlobHashes { .. } => {
                ||| hashes_of(v.challenged.header).len() == 0
                ||| hashes_of(v.first.header).len() == 0
                ||| hashes_of(v.second.header).len() == 0
                ||| hashes_of(v.prior.header).len() == 0
            },
            RunnerError::AnchorMissing { .. } => v.anchor == Some(None::<B256>),
            RunnerError::DepositCountTooLarge => {
                ||| block_of(v.challenged.header).num_deposits@ > u64::MAX
                ||| block_of(v.prior.header).num_deposits@ > u64::MAX
            },
            RunnerError::TransactionCountTooLarge => block_of(v.prior.header).num_transactions@
                > u64::MAX,
            RunnerError::MissingMerkleData => v.fraud->IncorrectTreeUpdate_merkle_data is None,
            RunnerError::PriorUpdateNotBefore { prior, update } => prior >= update,
            _ => false,
        },
{
}

/// Blobs are fetched from where they are: those of the challenged block from the first layer's
/// block in which it was found, and those of any other from the one that was kept with its
/// header.
pub proof fn law_blobs_are_fetched_where_they_are(v: SubmissionView, role: Role)
    ensures
        role is Challenged ==> blob_source(v, role) == v.l1_block_number,
        role is Target ==> (v.target.header matches HeaderView::Found { l1_block_number, .. }
            ==> blob_source(v, role) == l1_block_number),
        role is First ==> (v.first.header matches HeaderView::Found { l1_block_number, .. }
            ==> blob_source(v, role) == l1_block_number),
        role is Second ==> (v.second.header matches HeaderView::Found { l1_block_number, .. }
            ==> blob_source(v, role) == l1_block_number),
        role is Prior ==> (v.prior.header matches HeaderView::Found { l1_block_number, .. }
            ==> blob_source(v, role) == l1_block_number),
{
}

/// What is handed in is kept under its role, and nothing else changes: neither the evidence nor
/// what is known of other blocks.
pub proof fn law_replies_are_kept_under_their_role(
    v: SubmissionView,
    role: Role,
    other: Role,
    block: BlockView,
    l1_block_number: u64,
    blobs: Seq<Seq<u8>>,
)
    ensures
        ({
            let found = with_header(v, role, Some((block, l1_block_number)));
            let missing = with_header(v, role, None);
            let filled = with_blobs(v, role, blobs);
            &&& found.block_in(role).header == (HeaderView::Found { block, l1_block_number })
            &&& missing.block_in(role).header is Missing
            &&& filled.block_in(role).blobs == Some(blobs)
            &&& found.block_in(role).blobs == v.block_in(role).blobs
            &&& filled.block_in(role).header == v.block_in(role).header
            &&& other != role ==> found.block_in(other) == v.block_in(other)
                && missing.block_in(other) == v.block_in(other) && filled.block_in(other)
                == v.block_in(other)
            &&& found.fraud == v.fraud && found.block_nr == v.block_nr && found.l1_block_number
                == v.l1_block_number && found.genesis_anchor == v.genesis_anchor && found.anchor
                == v.anchor && found.update_proof == v.update_proof
            &&& filled.fraud == v.fraud && filled.block_nr == v.block_nr && filled.l1_block_number
                == v.l1_block_number && filled.genesis_anchor == v.genesis_anchor && filled.anchor
                == v.anchor && filled.update_proof == v.update_proof
        }),
{
}

/// A challenge that was built names the block to roll back to: the one before the challenged block
/// where its header is kept, and else the header that is all zero. It is of the kind of its
/// evidence.
pub proof fn law_built_challenge_rolls_back_to_the_block_before(
    v: SubmissionView,
    challenge: ChallengeView,
)
    requires
        is_outcome(v, Ok(challenge)),
    ensures
        ({
            let target = match challenge {
                ChallengeView::Deposit { challenge } => challenge.prior_block,
                ChallengeView::Nullifier { challenge } => challenge.prior_block,
                ChallengeView::Transaction { challenge } => challenge.rollback_target_block,
                ChallengeView::TreeUpdate { challenge } => challenge.rollback_target_block,
            };
            match v.target.header {
                HeaderView::Found { block, .. } => if v.block_nr > 0 {
                    target == block
                } else {
                    is_first_header(target)
                },
                _ => is_first_header(target),
            }
        }),
        challenge is Deposit <==> (v.fraud is DepositWrongLeaf || v.fraud is DepositPaddingNotZero),
        challenge is Nullifier <==> v.fraud is NullifierDoubleSpend,
        challenge is Transaction <==> (v.fraud is InvalidTransactionProof
            || v.fraud is InvalidAnchorReference || v.fraud is MissingEthKeyAuth),
        challenge is TreeUpdate <==> v.fraud is IncorrectTreeUpdate,
        challenge matches ChallengeView::Nullifier { challenge: c } ==> c.first_block == block_of(
            v.first.header,
        ) && c.second_block == block_of(v.second.header),
        challenge matches ChallengeView::Transaction { challenge: c } ==> c.prior_anchor_block
            == block_of(v.prior.header) && v.anchor == Some(Some(c.anchor)),
        challenge matches ChallengeView::TreeUpdate { challenge: c } ==> v.update_proof == Some(
            (c.true_anchor, c.zk_proof),
        ) && c.true_anchor == v.fraud->IncorrectTreeUpdate_expected_anchor,
{
}

/// Whether a word and its proof are at an address in the blobs of a block, each blob being taken
/// with the hash of its place in the block's header.
pub open spec fn opened_in(
    block: BlockKnowledge,
    address: int,
    opening: Seq<u8>,
    commitment: Seq<u8>,
) -> bool {
    exists|list: Seq<BlobWithHash>, word: Seq<u8>| #[trigger]
        opens_at(list, address, word, opening, commitment) && are_blobs_of(list, block)
}

/// A challenge that was built proves what the evidence is about out of the blobs of the right
/// blocks: the leaf of a deposit out of those of the challenged block; the two nullifiers out of
/// those of their blocks; the anchor that a transaction refers to out of those of the block that
/// left it, at the field of that update; and the anchor that a tree update went on from out of
/// those of the same block, at the field of the update before, or out of those of the block
/// before, at its last field.
pub proof fn law_built_challenge_opens_blobs_of_its_blocks(
    v: SubmissionView,
    challenge: ChallengeView,
)
    requires
        is_outcome(v, Ok(challenge)),
    ensures
        match challenge {
            ChallengeView::Deposit { challenge: c } => opened_in(
                v.challenged,
                4 * (c.deposit_nr as int / 3) + c.deposit_nr as int % 3,
                c.proof,
                c.commitment,
            ),
            ChallengeView::Nullifier { challenge: c } => {
                let second = if v.fraud->NullifierDoubleSpend_first_block_nr
                    == v.fraud->NullifierDoubleSpend_second_block_nr {
                    BlockKnowledge { header: v.second.header, blobs: v.first.blobs }
                } else {
                    v.second
                };
                &&& opened_in(
                    v.first,
                    4 * ((c.first_block.num_deposits@ + 2) / 3) as int + 15 * c.first_tx_number + 9
                        + c.first_which,
                    c.first_proof,
                    c.first_commitment,
                )
                &&& opened_in(
                    second,
                    4 * ((c.second_block.num_deposits@ + 2) / 3) as int + 15 * c.second_tx_number + 9
                        + c.second_which,
                    c.second_proof,
                    c.second_commitment,
                )
            },
            ChallengeView::Transaction { challenge: c } => {
                let groups = ((c.prior_anchor_block.num_deposits@ + 2) / 3) as int;
                let (update_nr, is_deposit) = match v.fraud {
                    EvidenceView::InvalidTransactionProof { anchor_update_nr, is_deposit, .. } => (
                        anchor_update_nr,
                        is_deposit,
                    ),
                    EvidenceView::InvalidAnchorReference { anchor_update_nr, is_deposit, .. } => (
                        anchor_update_nr,
                        is_deposit,
                    ),
                    EvidenceView::MissingEthKeyAuth { anchor_update_nr, is_deposit, .. } => (
                        anchor_update_nr,
                        is_deposit,
                    ),
                    _ => (0u32, false),
                };
                opened_in(
                    v.prior,
                    if is_deposit {
                        4 * update_nr + 3
                    } else {
                        4 * groups + 15 * update_nr + 14
                    },
                    c.prior_anchor_proof,
                    c.prior_anchor_commitment,
                )
            },
            ChallengeView::TreeUpdate { challenge: c } => {
                let header = block_of(v.challenged.header);
                let groups = ((header.num_deposits@ + 2) / 3) as int;
                let prior = block_of(v.prior.header);
                match v.fraud {
                    EvidenceView::IncorrectTreeUpdate {
                        prior_anchor,
                        prior_anchor_block_nr,
                        prior_update_nr,
                        ..
                    } => match (prior_update_nr, prior_anchor_block_nr) {
                        (Some(before), _) => {
                            let address = if before < groups {
                                4 * before + 3
                            } else {
                                4 * groups + 15 * (before - groups) + 14
                            };
                            &&& c.prior_anchor == prior_anchor
                            &&& address <= usize::MAX ==> opened_in(
                                v.challenged,
                                address,
                                c.prior_anchor_proof,
                                c.prior_anchor_commitment,
                            )
                        },
                        (None, Some(_)) => {
                            &&& c.prior_anchor == prior_anchor
                            &&& prior.num_deposits@ > 0 || prior.num_transactions@ > 0 ==> opened_in(
                                v.prior,
                                4 * ((prior.num_deposits@ + 2) / 3) as int + 15
                                    * prior.num_transactions@ - 1,
                                c.prior_anchor_proof,
                                c.prior_anchor_commitment,
                            )
                        },
                        (None, None) => c.prior_anchor == v.genesis_anchor
                            && c.prior_anchor_proof.len() == 0,
                    },
                    _ => false,
                }
            },
        },
{
    let (blobs, others, second, target): (
        Seq<BlobWithHash>,
        Seq<BlobWithHash>,
        Seq<BlobWithHash>,
        BlockView,
    ) = choose|
        blobs: Seq<BlobWithHash>,
        others: Seq<BlobWithHash>,
        second: Seq<BlobWithHash>,
        target: BlockView,
    | #[trigger]
        built_from(v, Ok(challenge), blobs, others, second, target) && are_blobs_of(
            blobs,
            v.challenged,
        ) && is_target(v, target);
    match challenge {
        ChallengeView::Deposit { challenge: c } => {
            law_deposit_challenge_opens_the_leaf(v.fraud, blobs, target);
            let address = 4 * (c.deposit_nr as int / 3) + c.deposit_nr as int % 3;
            assert(opens_at(blobs, address, c.leaf, c.proof, c.commitment));
        },
        ChallengeView::Nullifier { challenge: c } => {
            law_nullifier_challenge_opens_both(
                v.fraud,
                others,
                second,
                block_of(v.first.header),
                block_of(v.second.header),
                target,
            );
        },
        ChallengeView::Transaction { challenge: c } => {
            let n = block_of(v.prior.header).num_deposits@;
            let (update_nr, is_deposit) = match plan_of(v.fraud, block_of(v.challenged.header)) {
                Ok(ChallengePlan::Transaction { anchor_update_nr, is_deposit, .. }) => (
                    anchor_update_nr,
                    is_deposit,
                ),
                _ => (0u32, false),
            };
            law_transaction_challenge_opens_the_transaction(
                v.fraud,
                blobs,
                c.anchor,
                block_of(v.prior.header),
                others,
                anchor_address(update_nr as nat, n, is_deposit),
                target,
            );
        },
        ChallengeView::TreeUpdate { challenge: c } => {
            let plan = plan_of(v.fraud, block_of(v.challenged.header));
            let prior = plan->Ok_0->TreeUpdate_prior;
            if !(prior is Genesis) {
                let at = prior_index(v, prior);
                law_proof_opens_its_field(others, at);
                law_last_anchor_is_the_last_field(block_of(v.prior.header));
                let word = (proof_at(others, at)->Ok_0).0.value;
                assert(opens_at(
                    others,
                    at as int,
                    word,
                    c.prior_anchor_proof,
                    c.prior_anchor_commitment,
                ));
            }
        },
    }
}

} // verus!
