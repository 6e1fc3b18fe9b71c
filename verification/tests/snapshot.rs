use gitsplits::contract::Snapshot;
use gitsplits::identity::Binding;
use gitsplits::text::chars_of;
use gitsplits::{
    Attestation, Contributor, GitSplitsContract, TransactionStatus, WorkerInfo, PERCENTAGE_SCALE,
};

const PERCENT: u128 = PERCENTAGE_SCALE / 100;

fn worker() -> String {
    "worker.near".to_string()
}

fn busy_ledger() -> GitSplitsContract {
    let mut contract = GitSplitsContract::new("owner.near".to_string());
    let attestation = Attestation { quote: "q".to_string(), endorsements: "e".to_string() };
    contract
        .register_worker(&worker(), 1, attestation, "hash".to_string())
        .unwrap();
    let split = contract
        .create_split(&worker(), 2, "repo".to_string(), "o".to_string())
        .unwrap();
    contract
        .create_split(&worker(), 3, "other".to_string(), "o".to_string())
        .unwrap();
    let list = vec![
        Contributor {
            github_username: "alice".to_string(),
            account_id: None,
            percentage: 60 * PERCENT,
        },
        Contributor {
            github_username: "bob".to_string(),
            account_id: Some("bob.near".to_string()),
            percentage: 40 * PERCENT,
        },
    ];
    contract.update_split(&worker(), 4, split.clone(), list).unwrap();
    contract
        .store_verification(
            &worker(),
            "zed".to_string(),
            "zed_x".to_string(),
            "zed.near".to_string(),
        )
        .unwrap();
    contract
        .store_verification(
            &worker(),
            "alice".to_string(),
            "alice_x".to_string(),
            "alice.near".to_string(),
        )
        .unwrap();
    let id = contract
        .distribute(&worker(), 5, split, 1000, Some("usdc".to_string()))
        .unwrap();
    contract
        .update_transaction_status(
            &worker(),
            id,
            0,
            Some("0x1".to_string()),
            TransactionStatus::Completed,
        )
        .unwrap();
    contract
        .store_pending_distribution(&worker(), 6, "carol".to_string(), 5, "usdc".to_string())
        .unwrap();
    contract
}

fn snapshot() -> Snapshot {
    busy_ledger().into_snapshot()
}

#[test]
fn a_snapshot_holds_the_whole_state() {
    let s = snapshot();
    assert_eq!(s.owner, "owner.near");
    assert_eq!(s.worker_accounts, vec!["worker.near".to_string()]);
    assert_eq!(
        s.worker_infos,
        vec![WorkerInfo { code_hash: "hash".to_string(), registered_at: 1, last_active_at: 1 }]
    );
    assert!(s.allowed_code_hashes.is_empty());
    assert_eq!(s.splits.len(), 2);
    assert_eq!(
        s.bindings,
        vec![
            Binding {
                github_username: "alice".to_string(),
                wallet_address: "alice.near".to_string()
            },
            Binding { github_username: "zed".to_string(), wallet_address: "zed.near".to_string() },
        ]
    );
    assert_eq!(s.handle_usernames.len(), 2);
    assert_eq!(s.handles.len(), 2);
    assert_eq!(s.distributions.len(), 1);
    assert_eq!(s.pending.len(), 2);
}

#[test]
fn a_restored_ledger_is_the_ledger_that_was_stored() {
    let restored = GitSplitsContract::restore(snapshot()).unwrap();
    let stored = busy_ledger();
    assert_eq!(restored.owner(), stored.owner());
    assert!(restored.is_worker_registered(worker()));
    assert_eq!(restored.get_split("split-0".to_string()), stored.get_split("split-0".to_string()));
    assert_eq!(
        restored.get_split_by_repo("other".to_string()),
        stored.get_split_by_repo("other".to_string())
    );
    assert_eq!(restored.list_page(0, 10), stored.list_page(0, 10));
    assert_eq!(
        restored.get_distribution("dist-0".to_string()),
        stored.get_distribution("dist-0".to_string())
    );
    assert_eq!(
        restored.get_pending_distributions("bob".to_string()),
        stored.get_pending_distributions("bob".to_string())
    );
    assert_eq!(
        restored.get_pending_distributions("carol".to_string()),
        stored.get_pending_distributions("carol".to_string())
    );
    assert_eq!(restored.get_x_username("zed".to_string()), Some("zed_x".to_string()));
    assert_eq!(restored.into_snapshot(), snapshot());
}

#[test]
fn a_restored_ledger_goes_on_where_the_stored_one_stopped() {
    let mut restored = GitSplitsContract::restore(snapshot()).unwrap();
    let id = restored
        .create_split(&worker(), 9, "third".to_string(), "o".to_string())
        .unwrap();
    assert_eq!(id, "split-2");
    let id = restored
        .distribute(&worker(), 10, "split-0".to_string(), 10, None)
        .unwrap();
    assert_eq!(id, "dist-1");
    let id = restored
        .store_pending_distribution(&worker(), 11, "dave".to_string(), 1, "t".to_string())
        .unwrap();
    assert_eq!(id, "pending-dave-11-3");
}

#[test]
fn an_empty_ledger_is_restored() {
    let empty = GitSplitsContract::new("o".to_string()).into_snapshot();
    let restored = GitSplitsContract::restore(empty).unwrap();
    assert_eq!(restored.owner(), "o");
    assert!(restored.list_page(0, 10).is_empty());
}

fn assert_refused(change: fn(&mut Snapshot)) {
    let mut s = snapshot();
    change(&mut s);
    assert!(GitSplitsContract::restore(s).is_none());
}

#[test]
fn a_snapshot_with_a_missing_value_is_refused() {
    assert_refused(|s| s.worker_infos.clear());
    assert_refused(|s| {
        s.handles.pop();
    });
}

#[test]
fn a_snapshot_with_foreign_ids_is_refused() {
    assert_refused(|s| s.splits[1].id = "split-7".to_string());
    assert_refused(|s| s.splits.swap(0, 1));
    assert_refused(|s| s.distributions[0].id = "dist-1".to_string());
    assert_refused(|s| s.pending[1].id = "pending-carol-6-0".to_string());
    assert_refused(|s| s.pending[0].timestamp = 77);
}

#[test]
fn a_snapshot_with_a_repository_twice_is_refused() {
    assert_refused(|s| s.splits[1].repo_url = "repo".to_string());
}

#[test]
fn a_snapshot_with_a_bad_contributor_list_is_refused() {
    assert_refused(|s| s.splits[0].contributors[0].percentage += 1);
    assert_refused(|s| s.splits[0].contributors[1].percentage = u128::MAX);
    assert_refused(|s| s.splits[0].contributors[1].github_username = "alice".to_string());
    assert_refused(|s| s.splits[0].contributors[1].github_username = String::new());
    assert_refused(|s| {
        s.splits[0].contributors[0].percentage = PERCENTAGE_SCALE;
        s.splits[0].contributors[1].percentage = 0;
    });
}

#[test]
fn a_snapshot_with_bindings_out_of_order_is_refused() {
    assert_refused(|s| s.bindings.swap(0, 1));
    assert_refused(|s| s.bindings[1].github_username = "alice".to_string());
    assert_refused(|s| s.bindings[0].github_username = String::new());
}

#[test]
fn a_snapshot_with_an_address_twice_is_refused() {
    assert_refused(|s| s.bindings[1].wallet_address = "alice.near".to_string());
}

#[test]
fn a_snapshot_with_a_bad_distribution_is_refused() {
    assert_refused(|s| s.distributions[0].amount = 0);
    assert_refused(|s| s.distributions[0].transactions.clear());
    assert_refused(|s| s.distributions[0].transactions[1].amount = 401);
    assert_refused(|s| s.distributions[0].transactions[1].amount = u128::MAX);
    assert_refused(|s| s.distributions[0].split_id = "split-2".to_string());
}

#[test]
fn a_later_entry_of_a_snapshot_replaces_an_earlier_one() {
    let mut s = snapshot();
    s.handle_usernames.push("zed".to_string());
    s.handles.push("newer".to_string());
    let restored = GitSplitsContract::restore(s).unwrap();
    assert_eq!(restored.get_x_username("zed".to_string()), Some("newer".to_string()));
}

#[test]
fn the_characters_of_a_text() {
    assert_eq!(chars_of(""), Vec::<char>::new());
    assert_eq!(chars_of("a\u{e9}\u{10348}z"), vec!['a', '\u{e9}', '\u{10348}', 'z']);
}
