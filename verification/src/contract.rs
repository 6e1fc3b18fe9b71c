//! The ledger as one state object. Every operation takes the caller and the
//! time as arguments; a call that is refused changes nothing.

use crate::assoc::{map_of, TextMap};
use crate::identity::{
    bindings_wf, bound_to, cursor_start, has_address, has_username, index_of_username,
    lemma_recipient_bound, listed, listing, next_cursor_of, page_size, page_slice, rebound,
    unbound, unverified_of, verified_of, Binding, BindingView,
};
use crate::ledger::{
    build_transactions, check_distributions, distribution_id, distributions_wf,
    has_distribution, history_of, index_of_distribution, lemma_distribution_found,
    lemma_distribution_ids_differ, lemma_distribution_within_amount, lemma_status_keeps_total,
    payouts_queued, token_name, transactions_for, with_status, with_transaction_status,
};
use crate::pending::{
    has_pending, index_of_pending, pending_id, queue_wf, settled, unclaimed_for, PendingQueue,
};
use crate::registry::IdentityRegistry;
use crate::splits::{
    canonical_contributors, check_splits, has_repo, has_split, index_of_repo, index_of_split,
    lemma_split_found, lemma_split_ids_differ, lemma_valid_is_storable, split_id, splits_wf,
    valid_contributors, validate_contributors,
};
use crate::text::{normalize_username, normalized, push_decimal};
use crate::types::{
    clone_text_option, clone_transactions, text_option_view, Attestation, ChainSignature,
    ContractError, Contributor, ContributorView, Distribution, DistributionId, DistributionView,
    PendingDistribution, PendingDistributionView, RepoVerificationStatus, Split, SplitId,
    SplitView, Transaction, TransactionStatus, Verification, VerificationPage, VerificationView,
    WorkerInfo, WorkerInfoView,
};
use vstd::prelude::*;

verus! {

/// The state of the ledger, as contracts speak of it.
pub struct ContractView {
    /// The account that set the ledger up.
    pub owner: Seq<char>,
    /// The registered workers, by account.
    pub workers: Map<Seq<char>, WorkerInfoView>,
    /// The code hashes that a worker may register with.
    pub allowed_code_hashes: Seq<Seq<char>>,
    /// The splits, in the order of their creation.
    pub splits: Seq<SplitView>,
    /// The verified identities, in the order of their usernames.
    pub bindings: Seq<BindingView>,
    /// The social handle recorded for each username that has one.
    pub handles: Map<Seq<char>, Seq<char>>,
    /// The distributions, in the order in which they were made.
    pub distributions: Seq<DistributionView>,
    /// The queue of payouts that wait for a verification.
    pub pending: Seq<PendingDistributionView>,
}

/// What holds of the state between any two calls.
pub open spec fn state_wf(v: ContractView) -> bool {
    &&& splits_wf(v.splits)
    &&& bindings_wf(v.bindings)
    &&& distributions_wf(v.distributions)
    &&& queue_wf(v.pending)
    &&& forall|k: int|
        0 <= k < v.distributions.len() ==> has_split(
            v.splits,
            (#[trigger] v.distributions[k]).split_id,
        )
}

/// Whether `account` is a registered worker: the callers that may change
/// splits, identities, distributions and payouts.
pub open spec fn is_worker(v: ContractView, account: Seq<char>) -> bool {
    v.workers.contains_key(account)
}

/// Whether a registration by `caller` with `code_hash` is let through: the
/// code hash is allowed, or the caller is the owner, or nothing has been set
/// up yet (the owner is not registered and no code hash is allowed).
pub open spec fn may_register(v: ContractView, caller: Seq<char>, code_hash: Seq<char>) -> bool {
    ||| v.allowed_code_hashes.contains(code_hash)
    ||| caller == v.owner
    ||| (!v.workers.contains_key(v.owner) && v.allowed_code_hashes.len() == 0)
}

/// The ledger.
pub struct GitSplitsContract {
    owner: String,
    registered_workers: TextMap<WorkerInfo>,
    allowed_code_hashes: Vec<String>,
    splits: Vec<Split>,
    identities: IdentityRegistry,
    distributions: Vec<Distribution>,
    pending: PendingQueue,
}

impl View for GitSplitsContract {
    type V = ContractView;

    closed spec fn view(&self) -> ContractView {
        ContractView {
            owner: self.owner@,
            workers: self.registered_workers@,
            allowed_code_hashes: self.allowed_code_hashes.deep_view(),
            splits: self.splits.deep_view(),
            bindings: self.identities.bindings(),
            handles: self.identities.handles(),
            distributions: self.distributions.deep_view(),
            pending: self.pending.entries(),
        }
    }
}

impl GitSplitsContract {
    /// The invariant of the ledger. Every constructor establishes it and
    /// every operation keeps it.
    pub closed spec fn wf(&self) -> bool {
        &&& self.registered_workers.wf()
        &&& self.identities.wf()
        &&& self.pending.wf()
        &&& state_wf(self@)
    }

    /// What the invariant says of the state.
    pub proof fn lemma_wf(&self)
        requires
            self.wf(),
        ensures
            state_wf(self@),
    {
    }

    /// A ledger without workers, splits, identities, distributions or
    /// payouts, set up by `owner`.
    pub fn new(owner: String) -> (r: Self)
        ensures
            r.wf(),
            r@ == (ContractView {
                owner: owner@,
                workers: Map::empty(),
                allowed_code_hashes: Seq::empty(),
                splits: Seq::empty(),
                bindings: Seq::empty(),
                handles: Map::empty(),
                distributions: Seq::empty(),
                pending: Seq::empty(),
            }),
    {
        let r = GitSplitsContract {
            owner,
            registered_workers: TextMap::new(),
            allowed_code_hashes: Vec::new(),
            splits: Vec::new(),
            identities: IdentityRegistry::new(),
            distributions: Vec::new(),
            pending: PendingQueue::new(),
        };
        proof {
            assert(r.allowed_code_hashes.deep_view() =~= Seq::<Seq<char>>::empty());
            assert(r.splits.deep_view() =~= Seq::<SplitView>::empty());
            assert(r.distributions.deep_view() =~= Seq::<DistributionView>::empty());
        }
        r
    }

    /// The account that set the ledger up.
    pub fn owner(&self) -> (r: String)
        ensures
            r@ == self@.owner,
    {
        self.owner.clone()
    }

    /// Whether `account` is the owner of the ledger.
    pub fn is_owner(&self, account: &String) -> (r: bool)
        ensures
            r == (account@ == self@.owner),
    {
        self.owner == *account
    }

    /// Whether `account_id` is a registered worker.
    pub fn is_worker_registered(&self, account_id: String) -> (r: bool)
        requires
            self.wf(),
        ensures
            r == is_worker(self@, account_id@),
    {
        self.registered_workers.contains_key(&account_id)
    }

    /// Registers the caller as a worker that runs the build `code_hash`, at
    /// the time `now`. The attestation is carried along and not examined.
    pub fn register_worker(
        &mut self,
        caller: &String,
        now: u64,
        _attestation: Attestation,
        code_hash: String,
    ) -> (r: Result<bool, ContractError>)
        requires
            old(self).wf(),
        ensures
            final(self).wf(),
            r is Ok <==> may_register(old(self)@, caller@, code_hash@),
            r is Err ==> r == Err::<bool, ContractError>(ContractError::Unauthorized),
            r is Err ==> final(self)@ == old(self)@,
            r is Ok ==> r == Ok::<bool, ContractError>(true) && final(self)@ == (ContractView {
                workers: old(self)@.workers.insert(
                    caller@,
                    WorkerInfoView {
                        code_hash: code_hash@,
                        registered_at: now,
                        last_active_at: now,
                    },
                ),
                ..old(self)@
            }),
    {
        let mut is_allowed = false;
        let mut i: usize = 0;
        while i < self.allowed_code_hashes.len()
            invariant
                i <= self.allowed_code_hashes.len(),
                is_allowed <==> exists|k: int|
                    0 <= k < i && #[trigger] self.allowed_code_hashes.deep_view()[k] == code_hash@,
            decreases self.allowed_code_hashes.len() - i,
        {
            if self.allowed_code_hashes[i] == code_hash {
                assert(self.allowed_code_hashes.deep_view()[i as int] == code_hash@);
                is_allowed = true;
            }
            i += 1;
        }
        let first_worker = !self.registered_workers.contains_key(&self.owner)
            && self.allowed_code_hashes.len() == 0;
        if first_worker || self.owner == *caller {
            is_allowed = true;
        }
        if !is_allowed {
            return Err(ContractError::Unauthorized);
        }
        self.registered_workers.insert(
            caller.clone(),
            WorkerInfo { code_hash, registered_at: now, last_active_at: now },
        );
        Ok(true)
    }

    /// A placeholder for a chain signature over `_tx_data`; no signature is
    /// computed here.
    pub fn generate_chain_signature(
        &self,
        caller: &String,
        chain_id: String,
        _tx_data: String,
    ) -> (r: Result<ChainSignature, ContractError>)
        requires
            self.wf(),
        ensures
            match r {
                Ok(s) => is_worker(self@, caller@) && s.signature@ == "signature_placeholder"@
                    && s.public_key@ == "public_key_placeholder"@ && s.chain_id@ == chain_id@,
                Err(e) => !is_worker(self@, caller@) && e == ContractError::Unauthorized,
            },
    {
        if !self.registered_workers.contains_key(caller) {
            return Err(ContractError::Unauthorized);
        }
        Ok(
            ChainSignature {
                signature: "signature_placeholder".to_owned(),
                public_key: "public_key_placeholder".to_owned(),
                chain_id,
            },
        )
    }
}

/// Whether a call was refused with the error `e`.
pub open spec fn refused<T>(r: Result<T, ContractError>, e: ContractError) -> bool {
    match r {
        Ok(_) => false,
        Err(x) => x == e,
    }
}

/// A split as it is right after its creation: without contributors.
pub open spec fn created_split(
    id: Seq<char>,
    repo_url: Seq<char>,
    owner: Seq<char>,
    now: u64,
) -> SplitView {
    SplitView {
        id,
        repo_url,
        owner,
        contributors: Seq::empty(),
        created_at: now,
        updated_at: now,
    }
}

/// A split with a new contributor list, stored in canonical form at the time
/// `now`.
pub open spec fn updated_split(s: SplitView, list: Seq<ContributorView>, now: u64) -> SplitView {
    SplitView { contributors: canonical_contributors(list), updated_at: now, ..s }
}

// The split registry.
impl GitSplitsContract {
    fn find_split(&self, split_id: &String) -> (r: Option<usize>)
        requires
            self.wf(),
        ensures
            match r {
                Some(i) => i < self.splits.len() && has_split(self@.splits, split_id@)
                    && index_of_split(self@.splits, split_id@) == i,
                None => !has_split(self@.splits, split_id@),
            },
    {
        let mut i: usize = 0;
        while i < self.splits.len()
            invariant
                self.wf(),
                i <= self.splits.len(),
                forall|k: int|
                    0 <= k < i ==> (#[trigger] self.splits.deep_view()[k]).id != split_id@,
            decreases self.splits.len() - i,
        {
            if self.splits[i].id == *split_id {
                proof {
                    assert(self.splits.deep_view()[i as int].id == split_id@);
                    lemma_split_found(self@.splits, i as int);
                }
                return Some(i);
            }
            i += 1;
        }
        None
    }

    fn find_repo(&self, repo_url: &String) -> (r: Option<usize>)
        requires
            self.wf(),
        ensures
            match r {
                Some(i) => i < self.splits.len() && has_repo(self@.splits, repo_url@)
                    && index_of_repo(self@.splits, repo_url@) == i,
                None => !has_repo(self@.splits, repo_url@),
            },
    {
        let mut i: usize = 0;
        while i < self.splits.len()
            invariant
                self.wf(),
                i <= self.splits.len(),
                forall|k: int|
                    0 <= k < i ==> (#[trigger] self.splits.deep_view()[k]).repo_url != repo_url@,
            decreases self.splits.len() - i,
        {
            if self.splits[i].repo_url == *repo_url {
                proof {
                    assert(self.splits.deep_view()[i as int].repo_url == repo_url@);
                    lemma_split_found(self@.splits, i as int);
                }
                return Some(i);
            }
            i += 1;
        }
        None
    }

    /// Creates the split of the repository `repo_url`, without contributors,
    /// and returns its id. A repository has one split at most.
    pub fn create_split(
        &mut self,
        caller: &String,
        now: u64,
        repo_url: String,
        owner: String,
    ) -> (r: Result<SplitId, ContractError>)
        requires
            old(self).wf(),
        ensures
            final(self).wf(),
            r is Ok <==> is_worker(old(self)@, caller@) && !has_repo(old(self)@.splits, repo_url@),
            refused(r, ContractError::Unauthorized) <==> !is_worker(old(self)@, caller@),
            refused(r, ContractError::AlreadyExists) <==> is_worker(old(self)@, caller@)
                && has_repo(old(self)@.splits, repo_url@),
            r is Err ==> final(self)@ == old(self)@,
            match r {
                Ok(id) => {
                    &&& id@ == split_id(old(self)@.splits.len())
                    &&& !has_split(old(self)@.splits, id@)
                    &&& has_split(final(self)@.splits, id@)
                    &&& has_repo(final(self)@.splits, repo_url@)
                    &&& final(self)@ == (ContractView {
                        splits: old(self)@.splits.push(created_split(id@, repo_url@, owner@, now)),
                        ..old(self)@
                    })
                },
                Err(_) => true,
            },
    {
        if !self.registered_workers.contains_key(caller) {
            return Err(ContractError::Unauthorized);
        }
        if self.find_repo(&repo_url).is_some() {
            return Err(ContractError::AlreadyExists);
        }
        let ghost before = self.splits.deep_view();
        proof {
            if has_split(before, split_id(before.len())) {
                let j = index_of_split(before, split_id(before.len()));
                lemma_split_ids_differ(j as nat, before.len());
            }
        }
        let index: usize = self.splits.len();
        let mut id: String = "split-".to_owned();
        push_decimal(&mut id, index as u64);
        let split = Split {
            id: id.clone(),
            repo_url,
            owner,
            contributors: Vec::new(),
            created_at: now,
            updated_at: now,
        };
        let ghost added = split@;
        proof {
            assert(split.contributors.deep_view() =~= Seq::<ContributorView>::empty());
        }
        self.splits.push(split);
        proof {
            let after = self.splits.deep_view();
            assert(after =~= before.push(added));
            assert(after[before.len() as int] == added);
            assert forall|k: int| 0 <= k < self@.distributions.len() implies has_split(
                after,
                (#[trigger] self@.distributions[k]).split_id,
            ) by {
                let j = index_of_split(before, self@.distributions[k].split_id);
                assert(after[j].id == self@.distributions[k].split_id);
            }
        }
        Ok(id)
    }

    /// Replaces the contributor list of the split `split_id`. The list is
    /// checked as a whole; a list that is not valid changes nothing.
    pub fn update_split(
        &mut self,
        caller: &String,
        now: u64,
        split_id: SplitId,
        contributors: Vec<Contributor>,
    ) -> (r: Result<bool, ContractError>)
        requires
            old(self).wf(),
        ensures
            final(self).wf(),
            r is Ok <==> is_worker(old(self)@, caller@) && has_split(old(self)@.splits, split_id@)
                && valid_contributors(contributors.deep_view()),
            refused(r, ContractError::Unauthorized) <==> !is_worker(old(self)@, caller@),
            refused(r, ContractError::NotFound) <==> is_worker(old(self)@, caller@) && !has_split(
                old(self)@.splits,
                split_id@,
            ),
            refused(r, ContractError::InvalidArgument) <==> is_worker(old(self)@, caller@)
                && has_split(old(self)@.splits, split_id@) && !valid_contributors(
                contributors.deep_view(),
            ),
            r is Err ==> final(self)@ == old(self)@,
            r is Ok ==> r == Ok::<bool, ContractError>(true) && final(self)@ == (ContractView {
                splits: old(self)@.splits.update(
                    index_of_split(old(self)@.splits, split_id@),
                    updated_split(
                        old(self)@.splits[index_of_split(old(self)@.splits, split_id@)],
                        contributors.deep_view(),
                        now,
                    ),
                ),
                ..old(self)@
            }),
    {
        if !self.registered_workers.contains_key(caller) {
            return Err(ContractError::Unauthorized);
        }
        let i = match self.find_split(&split_id) {
            Some(i) => i,
            None => {
                return Err(ContractError::NotFound);
            },
        };
        let stored = match validate_contributors(&contributors) {
            Some(stored) => stored,
            None => {
                return Err(ContractError::InvalidArgument);
            },
        };
        let ghost before = self.splits.deep_view();
        let current = &self.splits[i];
        let split = Split {
            id: current.id.clone(),
            repo_url: current.repo_url.clone(),
            owner: current.owner.clone(),
            contributors: stored,
            created_at: current.created_at,
            updated_at: now,
        };
        let ghost changed = split@;
        self.splits.set(i, split);
        proof {
            let after = self.splits.deep_view();
            assert(changed == updated_split(before[i as int], contributors.deep_view(), now));
            assert(after =~= before.update(i as int, changed));
            lemma_valid_is_storable(contributors.deep_view());
            assert forall|k: int| 0 <= k < self@.distributions.len() implies has_split(
                after,
                (#[trigger] self@.distributions[k]).split_id,
            ) by {
                let j = index_of_split(before, self@.distributions[k].split_id);
                assert(after[j].id == self@.distributions[k].split_id);
            }
        }
        Ok(true)
    }

    /// The split with the id `split_id`, if there is one.
    pub fn get_split(&self, split_id: SplitId) -> (r: Option<Split>)
        requires
            self.wf(),
        ensures
            match r {
                Some(s) => has_split(self@.splits, split_id@) && s@ == self@.splits[index_of_split(
                    self@.splits,
                    split_id@,
                )],
                None => !has_split(self@.splits, split_id@),
            },
    {
        match self.find_split(&split_id) {
            Some(i) => Some(self.splits[i].clone()),
            None => None,
        }
    }

    /// The split of the repository `repo_url`, if it has one.
    pub fn get_split_by_repo(&self, repo_url: String) -> (r: Option<Split>)
        requires
            self.wf(),
        ensures
            match r {
                Some(s) => has_repo(self@.splits, repo_url@) && s@ == self@.splits[index_of_repo(
                    self@.splits,
                    repo_url@,
                )],
                None => !has_repo(self@.splits, repo_url@),
            },
    {
        match self.find_repo(&repo_url) {
            Some(i) => Some(self.splits[i].clone()),
            None => None,
        }
    }
}

/// The usernames of a contributor list.
pub open spec fn usernames_of(list: Seq<ContributorView>) -> Seq<Seq<char>> {
    list.map_values(|c: ContributorView| c.github_username)
}

// The identity registry and the reconciliation of payouts.
impl GitSplitsContract {
    /// Binds the GitHub username to the wallet address and records the
    /// social handle. The username is brought into canonical form. Whatever
    /// was bound to the username or to the address before is unbound, and
    /// every payout that waits for the username is settled.
    pub fn store_verification(
        &mut self,
        caller: &String,
        github_username: String,
        x_username: String,
        wallet_address: String,
    ) -> (r: Result<Verification, ContractError>)
        requires
            old(self).wf(),
        ensures
            final(self).wf(),
            r is Ok <==> is_worker(old(self)@, caller@) && normalized(github_username@).len() > 0,
            refused(r, ContractError::Unauthorized) <==> !is_worker(old(self)@, caller@),
            refused(r, ContractError::InvalidArgument) <==> is_worker(old(self)@, caller@)
                && normalized(github_username@).len() == 0,
            r is Err ==> final(self)@ == old(self)@,
            match r {
                Ok(entry) => {
                    &&& entry@ == (VerificationView {
                        github_username: normalized(github_username@),
                        wallet_address: wallet_address@,
                        x_username: Some(x_username@),
                    })
                    &&& rebound(
                        old(self)@.bindings,
                        final(self)@.bindings,
                        normalized(github_username@),
                        wallet_address@,
                    )
                    &&& bound_to(
                        final(self)@.bindings,
                        normalized(github_username@),
                        wallet_address@,
                    )
                    &&& final(self)@ == (ContractView {
                        bindings: final(self)@.bindings,
                        handles: old(self)@.handles.insert(
                            normalized(github_username@),
                            x_username@,
                        ),
                        pending: settled(old(self)@.pending, normalized(github_username@)),
                        ..old(self)@
                    })
                },
                Err(_) => true,
            },
    {
        if !self.registered_workers.contains_key(caller) {
            return Err(ContractError::Unauthorized);
        }
        let username = normalize_username(github_username.as_str());
        if username.as_str().is_empty() {
            return Err(ContractError::InvalidArgument);
        }
        self.identities.bind(username.clone(), wallet_address.clone());
        self.identities.set_handle(username.clone(), x_username.clone());
        self.pending.settle(&username);
        proof {
            self.identities.lemma_wf();
            self.pending.lemma_wf();
        }
        Ok(Verification { github_username: username, wallet_address, x_username: Some(x_username) })
    }

    /// Binds the GitHub username to the wallet address as
    /// `store_verification` does, and leaves the social handles alone.
    pub fn rebind(
        &mut self,
        caller: &String,
        github_username: String,
        wallet_address: String,
    ) -> (r: Result<bool, ContractError>)
        requires
            old(self).wf(),
        ensures
            final(self).wf(),
            r is Ok <==> is_worker(old(self)@, caller@) && normalized(github_username@).len() > 0,
            refused(r, ContractError::Unauthorized) <==> !is_worker(old(self)@, caller@),
            refused(r, ContractError::InvalidArgument) <==> is_worker(old(self)@, caller@)
                && normalized(github_username@).len() == 0,
            r is Err ==> final(self)@ == old(self)@,
            r is Ok ==> {
                &&& r == Ok::<bool, ContractError>(true)
                &&& rebound(
                    old(self)@.bindings,
                    final(self)@.bindings,
                    normalized(github_username@),
                    wallet_address@,
                )
                &&& bound_to(
                    final(self)@.bindings,
                    normalized(github_username@),
                    wallet_address@,
                )
                &&& final(self)@ == (ContractView {
                    bindings: final(self)@.bindings,
                    pending: settled(old(self)@.pending, normalized(github_username@)),
                    ..old(self)@
                })
            },
    {
        if !self.registered_workers.contains_key(caller) {
            return Err(ContractError::Unauthorized);
        }
        let username = normalize_username(github_username.as_str());
        if username.as_str().is_empty() {
            return Err(ContractError::InvalidArgument);
        }
        self.identities.bind(username.clone(), wallet_address);
        self.pending.settle(&username);
        proof {
            self.identities.lemma_wf();
            self.pending.lemma_wf();
        }
        Ok(true)
    }

    /// Unbinds the GitHub username and forgets its social handle. Returns
    /// whether there was a binding or a handle to take away.
    pub fn revoke(&mut self, caller: &String, github_username: String) -> (r: Result<
        bool,
        ContractError,
    >)
        requires
            old(self).wf(),
        ensures
            final(self).wf(),
            r is Ok <==> is_worker(old(self)@, caller@),
            refused(r, ContractError::Unauthorized) <==> !is_worker(old(self)@, caller@),
            r is Err ==> final(self)@ == old(self)@,
            match r {
                Ok(taken) => {
                    &&& taken == (has_username(old(self)@.bindings, normalized(github_username@))
                        || old(self)@.handles.contains_key(normalized(github_username@)))
                    &&& unbound(
                        old(self)@.bindings,
                        final(self)@.bindings,
                        normalized(github_username@),
                    )
                    &&& final(self)@ == (ContractView {
                        bindings: final(self)@.bindings,
                        handles: old(self)@.handles.remove(normalized(github_username@)),
                        ..old(self)@
                    })
                },
                Err(_) => true,
            },
    {
        if !self.registered_workers.contains_key(caller) {
            return Err(ContractError::Unauthorized);
        }
        let username = normalize_username(github_username.as_str());
        let taken = self.identities.revoke(&username);
        proof {
            self.identities.lemma_wf();
        }
        Ok(taken)
    }

    /// Whether the GitHub username, in canonical form, is bound to an
    /// address.
    pub fn is_github_verified(&self, github_username: String) -> (r: bool)
        requires
            self.wf(),
        ensures
            r == has_username(self@.bindings, normalized(github_username@)),
    {
        let username = normalize_username(github_username.as_str());
        match self.identities.address_of(&username) {
            Some(a) => {
                proof {
                    self.identities.lemma_wf();
                    lemma_recipient_bound(self@.bindings, username@, a@);
                }
                true
            },
            None => false,
        }
    }

    /// The social handle recorded for the GitHub username, in canonical
    /// form.
    pub fn get_x_username(&self, github_username: String) -> (r: Option<String>)
        requires
            self.wf(),
        ensures
            match r {
                Some(x) => self@.handles.contains_key(normalized(github_username@)) && x@
                    == self@.handles[normalized(github_username@)],
                None => !self@.handles.contains_key(normalized(github_username@)),
            },
    {
        let username = normalize_username(github_username.as_str());
        self.identities.handle_of(&username)
    }

    /// The wallet address bound to the GitHub username, in canonical form.
    pub fn get_wallet_address(&self, github_username: String) -> (r: Option<String>)
        requires
            self.wf(),
        ensures
            match r {
                Some(a) => bound_to(self@.bindings, normalized(github_username@), a@),
                None => !has_username(self@.bindings, normalized(github_username@)),
            },
    {
        let username = normalize_username(github_username.as_str());
        self.identities.address_of(&username)
    }

    /// The GitHub username bound to the wallet address.
    pub fn get_github_by_wallet(&self, wallet_address: String) -> (r: Option<String>)
        requires
            self.wf(),
        ensures
            match r {
                Some(u) => bound_to(self@.bindings, u@, wallet_address@),
                None => !has_address(self@.bindings, wallet_address@),
            },
    {
        self.identities.username_of(&wallet_address)
    }

    /// The page of at most `limit` verified identities that starts at
    /// position `offset` of the listing by username. No page holds more than
    /// 200 entries.
    pub fn list_page(&self, offset: usize, limit: usize) -> (r: Vec<Verification>)
        requires
            self.wf(),
        ensures
            r.deep_view() == listing(
                page_slice(self@.bindings, offset as nat, page_size(limit as nat)),
                self@.handles,
            ),
    {
        self.identities.page(offset, limit)
    }

    /// The page of at most `limit` verified identities behind the username
    /// `start_after` in the listing by username, or from the start of the
    /// listing. A full page hands out its last username as the cursor of the
    /// next page; a page that is not full hands out none.
    pub fn list_cursor(&self, start_after: Option<String>, limit: usize) -> (r: VerificationPage)
        requires
            self.wf(),
        ensures
            r.entries.deep_view() == listing(
                page_slice(
                    self@.bindings,
                    cursor_start(self@.bindings, text_option_view(start_after)),
                    page_size(limit as nat),
                ),
                self@.handles,
            ),
            text_option_view(r.next_cursor) == next_cursor_of(
                page_slice(
                    self@.bindings,
                    cursor_start(self@.bindings, text_option_view(start_after)),
                    page_size(limit as nat),
                ),
                page_size(limit as nat),
            ),
    {
        self.identities.page_after(&start_after, limit)
    }

    /// The contributors of the split of `repo_url`, parted into those whose
    /// username is bound to an address and those whose username is not.
    /// Nothing is returned for a repository without a split.
    pub fn repo_verification_status(&self, repo_url: String) -> (r: Option<RepoVerificationStatus>)
        requires
            self.wf(),
        ensures
            match r {
                Some(status) => {
                    &&& has_repo(self@.splits, repo_url@)
                    &&& status.verified.deep_view() == verified_of(
                        usernames_of(
                            self@.splits[index_of_repo(self@.splits, repo_url@)].contributors,
                        ),
                        self@.bindings,
                        self@.handles,
                    )
                    &&& status.unverified.deep_view() == unverified_of(
                        usernames_of(
                            self@.splits[index_of_repo(self@.splits, repo_url@)].contributors,
                        ),
                        self@.bindings,
                    )
                },
                None => !has_repo(self@.splits, repo_url@),
            },
    {
        let i = match self.find_repo(&repo_url) {
            Some(i) => i,
            None => {
                return None;
            },
        };
        let contributors = &self.splits[i].contributors;
        let ghost names = usernames_of(contributors.deep_view());
        let ghost bindings = self@.bindings;
        let ghost handles = self@.handles;
        let mut verified: Vec<Verification> = Vec::new();
        let mut unverified: Vec<String> = Vec::new();
        let mut k: usize = 0;
        proof {
            self.identities.lemma_wf();
            assert(names.take(0) =~= Seq::<Seq<char>>::empty());
            assert(verified.deep_view() =~= verified_of(names.take(0), bindings, handles));
            assert(unverified.deep_view() =~= unverified_of(names.take(0), bindings));
        }
        while k < contributors.len()
            invariant
                self.wf(),
                k <= contributors.len(),
                names == usernames_of(contributors.deep_view()),
                bindings == self@.bindings,
                handles == self@.handles,
                bindings_wf(bindings),
                verified.deep_view() == verified_of(names.take(k as int), bindings, handles),
                unverified.deep_view() == unverified_of(names.take(k as int), bindings),
            decreases contributors.len() - k,
        {
            let c = &contributors[k];
            proof {
                assert(names[k as int] == c.github_username@);
                assert(names.take(k + 1).drop_last() =~= names.take(k as int));
                assert(names.take(k + 1).last() == names[k as int]);
            }
            match self.identities.address_of(&c.github_username) {
                Some(address) => {
                    let ghost before = verified.deep_view();
                    let entry = Verification {
                        github_username: c.github_username.clone(),
                        wallet_address: address,
                        x_username: self.identities.handle_of(&c.github_username),
                    };
                    proof {
                        lemma_recipient_bound(bindings, c.github_username@, entry.wallet_address@);
                        assert(entry@ == listed(
                            bindings[index_of_username(bindings, c.github_username@)],
                            handles,
                        ));
                    }
                    let ghost added = entry@;
                    verified.push(entry);
                    assert(verified.deep_view() =~= before.push(added));
                },
                None => {
                    let ghost before = unverified.deep_view();
                    unverified.push(c.github_username.clone());
                    assert(unverified.deep_view() =~= before.push(c.github_username@));
                },
            }
            k += 1;
        }
        proof {
            assert(names.take(k as int) =~= names);
        }
        Some(RepoVerificationStatus { verified, unverified })
    }
}

/// A payout as it is queued for `username` at the time `now`, behind `index`
/// earlier entries.
pub open spec fn queued_payout(
    username: Seq<char>,
    amount: nat,
    token: Seq<char>,
    now: u64,
    index: nat,
) -> PendingDistributionView {
    PendingDistributionView {
        id: pending_id(username, now, index),
        github_username: username,
        amount,
        token,
        timestamp: now,
        claimed: false,
    }
}

// The queue of pending payouts.
impl GitSplitsContract {
    /// Queues a payout of `amount` in `token` for the GitHub username, in
    /// canonical form, and returns the id of the entry.
    pub fn store_pending_distribution(
        &mut self,
        caller: &String,
        now: u64,
        github_username: String,
        amount: u128,
        token: String,
    ) -> (r: Result<String, ContractError>)
        requires
            old(self).wf(),
        ensures
            final(self).wf(),
            r is Ok <==> is_worker(old(self)@, caller@),
            refused(r, ContractError::Unauthorized) <==> !is_worker(old(self)@, caller@),
            r is Err ==> final(self)@ == old(self)@,
            match r {
                Ok(id) => {
                    &&& id@ == pending_id(
                        normalized(github_username@),
                        now,
                        old(self)@.pending.len(),
                    )
                    &&& !has_pending(old(self)@.pending, id@)
                    &&& final(self)@ == (ContractView {
                        pending: old(self)@.pending.push(
                            queued_payout(
                                normalized(github_username@),
                                amount as nat,
                                token@,
                                now,
                                old(self)@.pending.len(),
                            ),
                        ),
                        ..old(self)@
                    })
                },
                Err(_) => true,
            },
    {
        if !self.registered_workers.contains_key(caller) {
            return Err(ContractError::Unauthorized);
        }
        let username = normalize_username(github_username.as_str());
        let id = self.pending.enqueue(username, amount, token, now);
        proof {
            self.pending.lemma_wf();
        }
        Ok(id)
    }

    /// The queued payout with the id `id`, claimed or not. Claimed payouts
    /// stay in the queue.
    pub fn get_pending_distribution(&self, id: String) -> (r: Option<PendingDistribution>)
        requires
            self.wf(),
        ensures
            match r {
                Some(e) => has_pending(self@.pending, id@) && e@ == self@.pending[index_of_pending(
                    self@.pending,
                    id@,
                )],
                None => !has_pending(self@.pending, id@),
            },
    {
        self.pending.find(&id)
    }

    /// The payouts that wait for the GitHub username, in canonical form,
    /// and are not claimed yet, in the order in which they were queued.
    pub fn get_pending_distributions(&self, github_username: String) -> (r: Vec<
        PendingDistribution,
    >)
        requires
            self.wf(),
        ensures
            r.deep_view() == unclaimed_for(self@.pending, normalized(github_username@)),
    {
        let username = normalize_username(github_username.as_str());
        self.pending.unclaimed(&username)
    }
}

/// A distribution as it is recorded.
pub open spec fn recorded_distribution(
    v: ContractView,
    split: SplitView,
    amount: nat,
    token_id: Option<Seq<char>>,
    now: u64,
) -> DistributionView {
    DistributionView {
        id: distribution_id(v.distributions.len()),
        split_id: split.id,
        amount,
        token_id,
        timestamp: now,
        transactions: transactions_for(split.contributors, amount, v.bindings),
    }
}

// The distribution ledger.
impl GitSplitsContract {
    fn find_distribution(&self, distribution_id: &String) -> (r: Option<usize>)
        requires
            self.wf(),
        ensures
            match r {
                Some(i) => i < self.distributions.len() && has_distribution(
                    self@.distributions,
                    distribution_id@,
                ) && index_of_distribution(self@.distributions, distribution_id@) == i,
                None => !has_distribution(self@.distributions, distribution_id@),
            },
    {
        let mut i: usize = 0;
        while i < self.distributions.len()
            invariant
                self.wf(),
                i <= self.distributions.len(),
                forall|k: int|
                    0 <= k < i ==> (#[trigger] self.distributions.deep_view()[k]).id
                        != distribution_id@,
            decreases self.distributions.len() - i,
        {
            if self.distributions[i].id == *distribution_id {
                proof {
                    assert(self.distributions.deep_view()[i as int].id == distribution_id@);
                    lemma_distribution_found(self@.distributions, i as int);
                }
                return Some(i);
            }
            i += 1;
        }
        None
    }

    /// Records a distribution of `amount` against the split `split_id` and
    /// returns its id. Every contributor gets one transaction, for the
    /// contributor's share, in the order of the contributor list. A
    /// contributor who is verified is paid at the bound address; for every
    /// other one the transaction goes to the pending sentinel and a payout
    /// is queued.
    pub fn distribute(
        &mut self,
        caller: &String,
        now: u64,
        split_id: SplitId,
        amount: u128,
        token_id: Option<String>,
    ) -> (r: Result<DistributionId, ContractError>)
        requires
            old(self).wf(),
        ensures
            final(self).wf(),
            r is Ok <==> {
                &&& is_worker(old(self)@, caller@)
                &&& has_split(old(self)@.splits, split_id@)
                &&& old(self)@.splits[index_of_split(
                    old(self)@.splits,
                    split_id@,
                )].contributors.len() > 0
                &&& amount > 0
            },
            refused(r, ContractError::Unauthorized) <==> !is_worker(old(self)@, caller@),
            refused(r, ContractError::NotFound) <==> is_worker(old(self)@, caller@) && !has_split(
                old(self)@.splits,
                split_id@,
            ),
            refused(r, ContractError::InvalidArgument) <==> {
                &&& is_worker(old(self)@, caller@)
                &&& has_split(old(self)@.splits, split_id@)
                &&& (old(self)@.splits[index_of_split(
                    old(self)@.splits,
                    split_id@,
                )].contributors.len() == 0 || amount == 0)
            },
            r is Err ==> final(self)@ == old(self)@,
            match r {
                Ok(id) => {
                    let split = old(self)@.splits[index_of_split(old(self)@.splits, split_id@)];
                    &&& id@ == distribution_id(old(self)@.distributions.len())
                    &&& !has_distribution(old(self)@.distributions, id@)
                    &&& has_distribution(final(self)@.distributions, id@)
                    &&& final(self)@ == (ContractView {
                        distributions: old(self)@.distributions.push(
                            recorded_distribution(
                                old(self)@,
                                split,
                                amount as nat,
                                text_option_view(token_id),
                                now,
                            ),
                        ),
                        pending: payouts_queued(
                            old(self)@.pending,
                            split.contributors,
                            amount as nat,
                            token_name(text_option_view(token_id)),
                            now,
                            old(self)@.bindings,
                        ),
                        ..old(self)@
                    })
                },
                Err(_) => true,
            },
    {
        if !self.registered_workers.contains_key(caller) {
            return Err(ContractError::Unauthorized);
        }
        let i = match self.find_split(&split_id) {
            Some(i) => i,
            None => {
                return Err(ContractError::NotFound);
            },
        };
        if self.splits[i].contributors.len() == 0 || amount == 0 {
            return Err(ContractError::InvalidArgument);
        }
        let ghost before = self.distributions.deep_view();
        let ghost split = self.splits.deep_view()[i as int];
        let ghost bindings = self@.bindings;
        proof {
            if has_distribution(before, distribution_id(before.len())) {
                let j = index_of_distribution(before, distribution_id(before.len()));
                lemma_distribution_ids_differ(j as nat, before.len());
            }
        }
        let token: String = match &token_id {
            Some(t) => t.clone(),
            None => "NEAR".to_owned(),
        };
        let transactions = build_transactions(
            &self.splits[i].contributors,
            amount,
            &token,
            now,
            &self.identities,
            &mut self.pending,
        );
        let index: usize = self.distributions.len();
        let mut id: String = "dist-".to_owned();
        push_decimal(&mut id, index as u64);
        let distribution = Distribution {
            id: id.clone(),
            split_id,
            amount,
            token_id,
            timestamp: now,
            transactions,
        };
        let ghost added = distribution@;
        self.distributions.push(distribution);
        proof {
            let after = self.distributions.deep_view();
            assert(after =~= before.push(added));
            assert(after[before.len() as int] == added);
            self.pending.lemma_wf();
            lemma_distribution_within_amount(split.contributors, amount as nat, bindings);
            assert(has_split(self@.splits, added.split_id));
        }
        Ok(id)
    }

    /// Gives the transaction at `index` of the distribution
    /// `distribution_id` a new settlement hash and status. Nothing else
    /// changes.
    pub fn update_transaction_status(
        &mut self,
        caller: &String,
        distribution_id: DistributionId,
        index: usize,
        tx_hash: Option<String>,
        status: TransactionStatus,
    ) -> (r: Result<bool, ContractError>)
        requires
            old(self).wf(),
        ensures
            final(self).wf(),
            r is Ok <==> {
                &&& is_worker(old(self)@, caller@)
                &&& has_distribution(old(self)@.distributions, distribution_id@)
                &&& index < old(self)@.distributions[index_of_distribution(
                    old(self)@.distributions,
                    distribution_id@,
                )].transactions.len()
            },
            refused(r, ContractError::Unauthorized) <==> !is_worker(old(self)@, caller@),
            refused(r, ContractError::NotFound) <==> is_worker(old(self)@, caller@)
                && !has_distribution(old(self)@.distributions, distribution_id@),
            refused(r, ContractError::OutOfRange) <==> {
                &&& is_worker(old(self)@, caller@)
                &&& has_distribution(old(self)@.distributions, distribution_id@)
                &&& index >= old(self)@.distributions[index_of_distribution(
                    old(self)@.distributions,
                    distribution_id@,
                )].transactions.len()
            },
            r is Err ==> final(self)@ == old(self)@,
            r is Ok ==> {
                let k = index_of_distribution(old(self)@.distributions, distribution_id@);
                &&& r == Ok::<bool, ContractError>(true)
                &&& final(self)@ == (ContractView {
                    distributions: old(self)@.distributions.update(
                        k,
                        with_transaction_status(
                            old(self)@.distributions[k],
                            index as int,
                            text_option_view(tx_hash),
                            status,
                        ),
                    ),
                    ..old(self)@
                })
            },
    {
        if !self.registered_workers.contains_key(caller) {
            return Err(ContractError::Unauthorized);
        }
        let k = match self.find_distribution(&distribution_id) {
            Some(k) => k,
            None => {
                return Err(ContractError::NotFound);
            },
        };
        if index >= self.distributions[k].transactions.len() {
            return Err(ContractError::OutOfRange);
        }
        let ghost before = self.distributions.deep_view();
        let current = &self.distributions[k];
        let ghost hash_view = text_option_view(tx_hash);
        let mut transactions = clone_transactions(&current.transactions);
        let changed = Transaction {
            recipient: current.transactions[index].recipient.clone(),
            amount: current.transactions[index].amount,
            tx_hash,
            status,
        };
        let ghost changed_view = changed@;
        transactions.set(index, changed);
        let distribution = Distribution {
            id: current.id.clone(),
            split_id: current.split_id.clone(),
            amount: current.amount,
            token_id: clone_text_option(&current.token_id),
            timestamp: current.timestamp,
            transactions,
        };
        let ghost replaced = distribution@;
        proof {
            let old_list = before[k as int].transactions;
            assert(changed_view == with_status(old_list[index as int], hash_view, status));
            assert(replaced.transactions =~= old_list.update(index as int, changed_view));
            assert(replaced == with_transaction_status(
                before[k as int],
                index as int,
                hash_view,
                status,
            ));
            lemma_status_keeps_total(old_list, index as int, hash_view, status);
        }
        self.distributions.set(k, distribution);
        proof {
            let after = self.distributions.deep_view();
            assert(after =~= before.update(k as int, replaced));
        }
        Ok(true)
    }

    /// The distribution with the id `distribution_id`, if there is one.
    pub fn get_distribution(&self, distribution_id: DistributionId) -> (r: Option<Distribution>)
        requires
            self.wf(),
        ensures
            match r {
                Some(d) => has_distribution(self@.distributions, distribution_id@) && d@
                    == self@.distributions[index_of_distribution(
                    self@.distributions,
                    distribution_id@,
                )],
                None => !has_distribution(self@.distributions, distribution_id@),
            },
    {
        match self.find_distribution(&distribution_id) {
            Some(i) => Some(self.distributions[i].clone()),
            None => None,
        }
    }

    /// The ids of the distributions made against the split `split_id`, in
    /// the order in which they were made.
    pub fn distribution_history(&self, split_id: SplitId) -> (r: Vec<DistributionId>)
        ensures
            r.deep_view() == history_of(self@.distributions, split_id@),
    {
        let ghost s = self.distributions.deep_view();
        let mut out: Vec<DistributionId> = Vec::new();
        let mut i: usize = 0;
        proof {
            assert(s.take(0) =~= Seq::<DistributionView>::empty());
            assert(out.deep_view() =~= history_of(s.take(0), split_id@));
        }
        while i < self.distributions.len()
            invariant
                i <= self.distributions.len(),
                s == self.distributions.deep_view(),
                out.deep_view() == history_of(s.take(i as int), split_id@),
            decreases self.distributions.len() - i,
        {
            let d = &self.distributions[i];
            let ghost before = out.deep_view();
            proof {
                assert(s.take(i + 1).drop_last() =~= s.take(i as int));
                assert(s.take(i + 1).last() == d@);
            }
            if d.split_id == split_id {
                out.push(d.id.clone());
                assert(out.deep_view() =~= before.push(d.id@));
            }
            i += 1;
        }
        proof {
            assert(s.take(i as int) =~= s);
        }
        out
    }
}

/// The whole state of a ledger as plain records, as a host stores and loads
/// it. The workers and the social handles are lists of keys beside lists of
/// values; an entry replaces every earlier entry with the same key.
#[derive(Debug, PartialEq, Eq)]
pub struct Snapshot {
    pub owner: String,
    pub worker_accounts: Vec<String>,
    pub worker_infos: Vec<WorkerInfo>,
    pub allowed_code_hashes: Vec<String>,
    pub splits: Vec<Split>,
    pub bindings: Vec<Binding>,
    pub handle_usernames: Vec<String>,
    pub handles: Vec<String>,
    pub distributions: Vec<Distribution>,
    pub pending: Vec<PendingDistribution>,
}

impl View for Snapshot {
    type V = ContractView;

    open spec fn view(&self) -> ContractView {
        ContractView {
            owner: self.owner@,
            workers: map_of(self.worker_accounts.deep_view(), self.worker_infos.deep_view()),
            allowed_code_hashes: self.allowed_code_hashes.deep_view(),
            splits: self.splits.deep_view(),
            bindings: self.bindings.deep_view(),
            handles: map_of(self.handle_usernames.deep_view(), self.handles.deep_view()),
            distributions: self.distributions.deep_view(),
            pending: self.pending.deep_view(),
        }
    }
}

impl Snapshot {
    /// Whether the snapshot holds the state of a ledger: every key has its
    /// value, and the state is as it is between any two calls.
    pub open spec fn wf(&self) -> bool {
        &&& self.worker_accounts.len() == self.worker_infos.len()
        &&& self.handle_usernames.len() == self.handles.len()
        &&& state_wf(self@)
    }
}

fn holds_split(splits: &Vec<Split>, id: &String) -> (r: bool)
    ensures
        r == has_split(splits.deep_view(), id@),
{
    let mut i: usize = 0;
    while i < splits.len()
        invariant
            i <= splits.len(),
            forall|m: int| 0 <= m < i ==> (#[trigger] splits.deep_view()[m]).id != id@,
        decreases splits.len() - i,
    {
        if splits[i].id == *id {
            assert(splits.deep_view()[i as int].id == id@);
            return true;
        }
        i += 1;
    }
    false
}

/// Whether every distribution is made against one of the splits.
fn check_references(splits: &Vec<Split>, distributions: &Vec<Distribution>) -> (r: bool)
    ensures
        r == forall|k: int|
            0 <= k < distributions.len() ==> has_split(
                splits.deep_view(),
                (#[trigger] distributions.deep_view()[k]).split_id,
            ),
{
    let ghost s = splits.deep_view();
    let ghost d = distributions.deep_view();
    let mut k: usize = 0;
    while k < distributions.len()
        invariant
            k <= distributions.len(),
            s == splits.deep_view(),
            d == distributions.deep_view(),
            forall|m: int| 0 <= m < k ==> has_split(s, (#[trigger] d[m]).split_id),
        decreases distributions.len() - k,
    {
        assert(distributions[k as int]@ == d[k as int]);
        if !holds_split(splits, &distributions[k].split_id) {
            return false;
        }
        k += 1;
    }
    true
}

// Storing and loading.
impl GitSplitsContract {
    /// Takes the ledger apart into plain records. `restore` puts the same
    /// ledger together again from them.
    pub fn into_snapshot(self) -> (r: Snapshot)
        requires
            self.wf(),
        ensures
            r.wf(),
            r@ == self@,
    {
        let (worker_accounts, worker_infos) = self.registered_workers.into_parts();
        let (bindings, handle_usernames, handles) = self.identities.into_parts();
        let pending = self.pending.into_entries();
        Snapshot {
            owner: self.owner,
            worker_accounts,
            worker_infos,
            allowed_code_hashes: self.allowed_code_hashes,
            splits: self.splits,
            bindings,
            handle_usernames,
            handles,
            distributions: self.distributions,
            pending,
        }
    }

    /// Puts a ledger together from plain records. Everything that the
    /// ledger relies on is checked; nothing is returned for a snapshot that
    /// does not hold the state of a ledger.
    pub fn restore(snapshot: Snapshot) -> (r: Option<Self>)
        ensures
            match r {
                Some(contract) => snapshot.wf() && contract.wf() && contract@ == snapshot@,
                None => !snapshot.wf(),
            },
    {
        if snapshot.worker_accounts.len() != snapshot.worker_infos.len() {
            return None;
        }
        if !check_splits(&snapshot.splits) || !check_distributions(&snapshot.distributions)
            || !check_references(&snapshot.splits, &snapshot.distributions) {
            return None;
        }
        let ghost keys = snapshot.worker_accounts.deep_view();
        let ghost values = snapshot.worker_infos.deep_view();
        let mut workers: TextMap<WorkerInfo> = TextMap::new();
        let mut i: usize = 0;
        proof {
            assert(keys.take(0) =~= Seq::<Seq<char>>::empty());
        }
        while i < snapshot.worker_accounts.len()
            invariant
                i <= snapshot.worker_accounts.len() == snapshot.worker_infos.len(),
                keys == snapshot.worker_accounts.deep_view(),
                values == snapshot.worker_infos.deep_view(),
                workers.wf(),
                workers@ == map_of(keys.take(i as int), values.take(i as int)),
            decreases snapshot.worker_accounts.len() - i,
        {
            proof {
                assert(keys.take(i + 1).drop_last() =~= keys.take(i as int));
                assert(values.take(i + 1).drop_last() =~= values.take(i as int));
                assert(keys.take(i + 1).last() == snapshot.worker_accounts[i as int]@);
                assert(values.take(i + 1).last() == snapshot.worker_infos[i as int]@);
            }
            workers.insert(snapshot.worker_accounts[i].clone(), snapshot.worker_infos[i].clone());
            i += 1;
        }
        proof {
            assert(keys.take(i as int) =~= keys);
            assert(values.take(i as int) =~= values);
        }
        let identities = match IdentityRegistry::from_parts(
            snapshot.bindings,
            snapshot.handle_usernames,
            snapshot.handles,
        ) {
            Some(identities) => identities,
            None => {
                return None;
            },
        };
        let pending = match PendingQueue::from_entries(snapshot.pending) {
            Some(pending) => pending,
            None => {
                return None;
            },
        };
        let contract = GitSplitsContract {
            owner: snapshot.owner,
            registered_workers: workers,
            allowed_code_hashes: snapshot.allowed_code_hashes,
            splits: snapshot.splits,
            identities,
            distributions: snapshot.distributions,
            pending,
        };
        proof {
            contract.identities.lemma_wf();
            contract.pending.lemma_wf();
        }
        Some(contract)
    }
}

} // verus!
