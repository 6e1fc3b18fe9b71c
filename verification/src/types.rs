//! The records of the ledger and their mathematical views.

use vstd::prelude::*;

verus! {

pub type SplitId = String;

pub type DistributionId = String;

/// Why a call was refused. A refused call changes nothing.
#[derive(Clone, Copy, Debug, PartialEq, Eq, Structural)]
pub enum ContractError {
    /// The caller is not a registered worker.
    Unauthorized,
    /// No split or distribution has the given id or repository.
    NotFound,
    /// The repository already has a split.
    AlreadyExists,
    /// An argument breaks a rule of the data model.
    InvalidArgument,
    /// A transaction index lies beyond the distribution's transactions.
    OutOfRange,
}

/// The prefixes under which a host stores the ledger's collections.
#[derive(Debug, PartialEq, Eq)]
pub enum StorageKey {
    RegisteredWorkers,
    AllowedCodeHashes,
    Splits,
    SplitsByRepo,
    GithubIdentities,
    AccountGithubIdentities,
    Distributions,
    SplitDistributions,
    SplitDistributionsInner { split_id: String },
    GithubToXMappings,
    VerifiedWallets,
    PendingDistributions,
}

/// Evidence that a worker runs an attested build.
#[derive(Debug, PartialEq, Eq)]
pub struct Attestation {
    pub quote: String,
    pub endorsements: String,
}

impl Clone for Attestation {
    fn clone(&self) -> (r: Self)
        ensures
            r == *self,
    {
        Attestation { quote: self.quote.clone(), endorsements: self.endorsements.clone() }
    }
}

/// A registered worker: the build it runs, and when it registered and was
/// last active.
#[derive(Debug, PartialEq, Eq)]
pub struct WorkerInfo {
    pub code_hash: String,
    pub registered_at: u64,
    pub last_active_at: u64,
}

pub struct WorkerInfoView {
    pub code_hash: Seq<char>,
    pub registered_at: u64,
    pub last_active_at: u64,
}

impl View for WorkerInfo {
    type V = WorkerInfoView;

    open spec fn view(&self) -> WorkerInfoView {
        WorkerInfoView {
            code_hash: self.code_hash@,
            registered_at: self.registered_at,
            last_active_at: self.last_active_at,
        }
    }
}

impl DeepView for WorkerInfo {
    type V = WorkerInfoView;

    open spec fn deep_view(&self) -> WorkerInfoView {
        self@
    }
}

impl Clone for WorkerInfo {
    fn clone(&self) -> (r: Self)
        ensures
            r == *self,
    {
        WorkerInfo {
            code_hash: self.code_hash.clone(),
            registered_at: self.registered_at,
            last_active_at: self.last_active_at,
        }
    }
}

/// Clones an optional text.
pub fn clone_text_option(o: &Option<String>) -> (r: Option<String>)
    ensures
        r == *o,
{
    match o {
        Some(s) => Some(s.clone()),
        None => None,
    }
}

/// The view of an optional text.
pub open spec fn text_option_view(o: Option<String>) -> Option<Seq<char>> {
    match o {
        Some(s) => Some(s@),
        None => None,
    }
}

/// A payee of a split, with the weight of the payee's part.
#[derive(Debug, PartialEq, Eq)]
pub struct Contributor {
    pub github_username: String,
    pub account_id: Option<String>,
    pub percentage: u128,
}

pub struct ContributorView {
    pub github_username: Seq<char>,
    pub account_id: Option<Seq<char>>,
    pub percentage: nat,
}

impl View for Contributor {
    type V = ContributorView;

    open spec fn view(&self) -> ContributorView {
        ContributorView {
            github_username: self.github_username@,
            account_id: text_option_view(self.account_id),
            percentage: self.percentage as nat,
        }
    }
}

impl DeepView for Contributor {
    type V = ContributorView;

    open spec fn deep_view(&self) -> ContributorView {
        self@
    }
}

impl Clone for Contributor {
    fn clone(&self) -> (r: Self)
        ensures
            r == *self,
    {
        Contributor {
            github_username: self.github_username.clone(),
            account_id: clone_text_option(&self.account_id),
            percentage: self.percentage,
        }
    }
}

/// Clones a contributor list.
pub fn clone_contributors(list: &Vec<Contributor>) -> (r: Vec<Contributor>)
    ensures
        r@ == list@,
{
    let mut out: Vec<Contributor> = Vec::new();
    let mut i: usize = 0;
    while i < list.len()
        invariant
            i <= list.len(),
            out@ == list@.take(i as int),
        decreases list.len() - i,
    {
        out.push(list[i].clone());
        i += 1;
        assert(out@ =~= list@.take(i as int));
    }
    assert(list@.take(list.len() as int) =~= list@);
    out
}

/// A repository's split: who is paid, and with what weight.
#[derive(Debug, PartialEq, Eq)]
pub struct Split {
    pub id: SplitId,
    pub repo_url: String,
    pub owner: String,
    pub contributors: Vec<Contributor>,
    pub created_at: u64,
    pub updated_at: u64,
}

pub struct SplitView {
    pub id: Seq<char>,
    pub repo_url: Seq<char>,
    pub owner: Seq<char>,
    pub contributors: Seq<ContributorView>,
    pub created_at: u64,
    pub updated_at: u64,
}

impl View for Split {
    type V = SplitView;

    open spec fn view(&self) -> SplitView {
        SplitView {
            id: self.id@,
            repo_url: self.repo_url@,
            owner: self.owner@,
            contributors: self.contributors.deep_view(),
            created_at: self.created_at,
            updated_at: self.updated_at,
        }
    }
}

impl DeepView for Split {
    type V = SplitView;

    open spec fn deep_view(&self) -> SplitView {
        self@
    }
}

impl Clone for Split {
    fn clone(&self) -> (r: Self)
        ensures
            r@ == self@,
    {
        let contributors = clone_contributors(&self.contributors);
        assert(contributors.deep_view() =~= self.contributors.deep_view());
        Split {
            id: self.id.clone(),
            repo_url: self.repo_url.clone(),
            owner: self.owner.clone(),
            contributors,
            created_at: self.created_at,
            updated_at: self.updated_at,
        }
    }
}

#[derive(Clone, Copy, Debug, PartialEq, Eq, Structural)]
pub enum TransactionStatus {
    Pending,
    Completed,
    Failed,
}

/// One contributor's part of a distribution.
#[derive(Debug, PartialEq, Eq)]
pub struct Transaction {
    pub recipient: String,
    pub amount: u128,
    pub tx_hash: Option<String>,
    pub status: TransactionStatus,
}

pub struct TransactionView {
    pub recipient: Seq<char>,
    pub amount: nat,
    pub tx_hash: Option<Seq<char>>,
    pub status: TransactionStatus,
}

impl View for Transaction {
    type V = TransactionView;

    open spec fn view(&self) -> TransactionView {
        TransactionView {
            recipient: self.recipient@,
            amount: self.amount as nat,
            tx_hash: text_option_view(self.tx_hash),
            status: self.status,
        }
    }
}

impl DeepView for Transaction {
    type V = TransactionView;

    open spec fn deep_view(&self) -> TransactionView {
        self@
    }
}

impl Clone for Transaction {
    fn clone(&self) -> (r: Self)
        ensures
            r == *self,
    {
        Transaction {
            recipient: self.recipient.clone(),
            amount: self.amount,
            tx_hash: clone_text_option(&self.tx_hash),
            status: self.status,
        }
    }
}

/// Clones a transaction list.
pub fn clone_transactions(list: &Vec<Transaction>) -> (r: Vec<Transaction>)
    ensures
        r@ == list@,
{
    let mut out: Vec<Transaction> = Vec::new();
    let mut i: usize = 0;
    while i < list.len()
        invariant
            i <= list.len(),
            out@ == list@.take(i as int),
        decreases list.len() - i,
    {
        out.push(list[i].clone());
        i += 1;
        assert(out@ =~= list@.take(i as int));
    }
    assert(list@.take(list.len() as int) =~= list@);
    out
}

/// One payment of funds to a split, divided among its contributors.
#[derive(Debug, PartialEq, Eq)]
pub struct Distribution {
    pub id: DistributionId,
    pub split_id: SplitId,
    pub amount: u128,
    pub token_id: Option<String>,
    pub timestamp: u64,
    pub transactions: Vec<Transaction>,
}

pub struct DistributionView {
    pub id: Seq<char>,
    pub split_id: Seq<char>,
    pub amount: nat,
    pub token_id: Option<Seq<char>>,
    pub timestamp: u64,
    pub transactions: Seq<TransactionView>,
}

impl View for Distribution {
    type V = DistributionView;

    open spec fn view(&self) -> DistributionView {
        DistributionView {
            id: self.id@,
            split_id: self.split_id@,
            amount: self.amount as nat,
            token_id: text_option_view(self.token_id),
            timestamp: self.timestamp,
            transactions: self.transactions.deep_view(),
        }
    }
}

impl DeepView for Distribution {
    type V = DistributionView;

    open spec fn deep_view(&self) -> DistributionView {
        self@
    }
}

impl Clone for Distribution {
    fn clone(&self) -> (r: Self)
        ensures
            r@ == self@,
    {
        let transactions = clone_transactions(&self.transactions);
        assert(transactions.deep_view() =~= self.transactions.deep_view());
        Distribution {
            id: self.id.clone(),
            split_id: self.split_id.clone(),
            amount: self.amount,
            token_id: clone_text_option(&self.token_id),
            timestamp: self.timestamp,
            transactions,
        }
    }
}

/// A share that waits for its contributor to be verified.
#[derive(Debug, PartialEq, Eq)]
pub struct PendingDistribution {
    pub id: String,
    pub github_username: String,
    pub amount: u128,
    pub token: String,
    pub timestamp: u64,
    pub claimed: bool,
}

pub struct PendingDistributionView {
    pub id: Seq<char>,
    pub github_username: Seq<char>,
    pub amount: nat,
    pub token: Seq<char>,
    pub timestamp: u64,
    pub claimed: bool,
}

impl View for PendingDistribution {
    type V = PendingDistributionView;

    open spec fn view(&self) -> PendingDistributionView {
        PendingDistributionView {
            id: self.id@,
            github_username: self.github_username@,
            amount: self.amount as nat,
            token: self.token@,
            timestamp: self.timestamp,
            claimed: self.claimed,
        }
    }
}

impl DeepView for PendingDistribution {
    type V = PendingDistributionView;

    open spec fn deep_view(&self) -> PendingDistributionView {
        self@
    }
}

impl Clone for PendingDistribution {
    fn clone(&self) -> (r: Self)
        ensures
            r == *self,
    {
        PendingDistribution {
            id: self.id.clone(),
            github_username: self.github_username.clone(),
            amount: self.amount,
            token: self.token.clone(),
            timestamp: self.timestamp,
            claimed: self.claimed,
        }
    }
}

/// A signature for another chain, with the key that made it.
#[derive(Debug, PartialEq, Eq)]
pub struct ChainSignature {
    pub signature: String,
    pub public_key: String,
    pub chain_id: String,
}

impl Clone for ChainSignature {
    fn clone(&self) -> (r: Self)
        ensures
            r == *self,
    {
        ChainSignature {
            signature: self.signature.clone(),
            public_key: self.public_key.clone(),
            chain_id: self.chain_id.clone(),
        }
    }
}

/// A verified identity: a GitHub username in canonical form, the wallet
/// address bound to it, and the social handle recorded for it, if any.
#[derive(Debug, PartialEq, Eq)]
pub struct Verification {
    pub github_username: String,
    pub wallet_address: String,
    pub x_username: Option<String>,
}

pub struct VerificationView {
    pub github_username: Seq<char>,
    pub wallet_address: Seq<char>,
    pub x_username: Option<Seq<char>>,
}

impl View for Verification {
    type V = VerificationView;

    open spec fn view(&self) -> VerificationView {
        VerificationView {
            github_username: self.github_username@,
            wallet_address: self.wallet_address@,
            x_username: text_option_view(self.x_username),
        }
    }
}

impl DeepView for Verification {
    type V = VerificationView;

    open spec fn deep_view(&self) -> VerificationView {
        self@
    }
}

impl Clone for Verification {
    fn clone(&self) -> (r: Self)
        ensures
            r == *self,
    {
        Verification {
            github_username: self.github_username.clone(),
            wallet_address: self.wallet_address.clone(),
            x_username: clone_text_option(&self.x_username),
        }
    }
}

/// One page of the verified identities, with the key to continue from.
#[derive(Debug, PartialEq, Eq)]
pub struct VerificationPage {
    pub entries: Vec<Verification>,
    pub next_cursor: Option<String>,
}

/// A split's contributors, parted by whether their identity is verified.
#[derive(Debug, PartialEq, Eq)]
pub struct RepoVerificationStatus {
    pub verified: Vec<Verification>,
    pub unverified: Vec<String>,
}

} // verus!
