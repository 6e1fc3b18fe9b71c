//! A revenue-splitting ledger: repositories with percentage-weighted
//! contributors, fund distributions against them, and payouts that wait for a
//! contributor's GitHub identity to be verified.
//!
//! The whole state is one [`GitSplitsContract`] value. Every operation takes
//! the caller and the time as arguments, and a call that is refused changes
//! nothing. A host stores the state as a [`Snapshot`] and loads it again with
//! [`GitSplitsContract::restore`].

pub mod assoc;
pub mod contract;
pub mod identity;
pub mod laws;
pub mod ledger;
pub mod pending;
pub mod registry;
pub mod shares;
pub mod splits;
pub mod text;
pub mod types;

pub use contract::{GitSplitsContract, Snapshot};
pub use identity::Binding;
pub use shares::{compute_share, MAX_CONTRIBUTORS, PERCENTAGE_SCALE};
pub use text::normalize_username;
pub use types::{
    Attestation, ChainSignature, ContractError, Contributor, Distribution, DistributionId,
    PendingDistribution, RepoVerificationStatus, Split, SplitId, StorageKey, Transaction,
    TransactionStatus, Verification, VerificationPage, WorkerInfo,
};
