//! Fraud detection for the Pretty Good Payments rollup: the rules by which a
//! block is checked, and the evidence and challenges built from what is found.

pub mod beacon;
pub mod blob;
pub mod blob_cache;
pub mod challenge;
pub mod circom_prover;
pub mod event_loop;
pub mod events;
pub mod fallback;
pub mod groth16;
pub mod kzg;
pub mod merkle;
pub mod runner;
pub mod settings;
pub mod snarkjs;
pub mod state;
pub mod text;
pub mod types;
pub mod validators;

pub use beacon::{BeaconBlobProvider, DatabaseBlobProvider, ExecutionBlobProvider};
pub use challenge::{
    memory, BlobWithHash, ChallengeBuilder, DepositChallengeParams, NullifierChallengeParams,
    TransactionChallengeParams, TreeUpdateChallengeParams,
};
pub use event_loop::{EventLoopConfig, EventLoopExit};
pub use events::{ChainEvent, EventListener, EventListenerConfig, PollResult};
pub use groth16::{Groth16Verifier, TransferPublicInputs, UpdatePublicInputs};
pub use kzg::{KzgFieldProof, KzgProver};
pub use runner::{default_block_data, fraud_type_name, ChallengerRunner, FraudWithContext};
pub use snarkjs::SnarkjsProver;
pub use state::PendingChallenge;
pub use validators::{
    compute_anchor_from_path, AnchorLookup, BlockTreeTracker, DepositValidator, FraudEvidence,
    NullifierValidator, RootTreeTracker, TransactionValidator, TreeUpdateMerkleData,
    TreeUpdateValidator, BLOCKS_PER_DAY,
};
