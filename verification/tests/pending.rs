use gitsplits::{Attestation, ContractError, GitSplitsContract, PendingDistribution};

fn worker() -> String {
    "worker.near".to_string()
}

fn ledger() -> GitSplitsContract {
    let mut contract = GitSplitsContract::new("owner.near".to_string());
    let attestation = Attestation { quote: "q".to_string(), endorsements: "e".to_string() };
    contract
        .register_worker(&worker(), 1, attestation, "hash".to_string())
        .unwrap();
    contract
}

fn enqueue(contract: &mut GitSplitsContract, name: &str, amount: u128, now: u64) -> String {
    contract
        .store_pending_distribution(&worker(), now, name.to_string(), amount, "usdc".to_string())
        .unwrap()
}

#[test]
fn a_queued_payout_is_listed_for_its_username() {
    let mut contract = ledger();
    let id = enqueue(&mut contract, " @Alice ", 25, 100);
    assert_eq!(id, "pending-alice-100-0");
    let expected = PendingDistribution {
        id: id.clone(),
        github_username: "alice".to_string(),
        amount: 25,
        token: "usdc".to_string(),
        timestamp: 100,
        claimed: false,
    };
    assert_eq!(contract.get_pending_distributions("ALICE".to_string()), vec![expected.clone()]);
    assert_eq!(contract.get_pending_distribution(id), Some(expected));
    assert!(contract.get_pending_distributions("bob".to_string()).is_empty());
    assert_eq!(contract.get_pending_distribution("pending-alice-100-1".to_string()), None);
}

#[test]
fn payouts_queued_at_the_same_time_get_different_ids() {
    let mut contract = ledger();
    let a = enqueue(&mut contract, "alice", 1, 100);
    let b = enqueue(&mut contract, "alice", 2, 100);
    let c = enqueue(&mut contract, "alice", 3, 100);
    assert_ne!(a, b);
    assert_ne!(b, c);
    assert_ne!(a, c);
    let amounts: Vec<u128> = contract
        .get_pending_distributions("alice".to_string())
        .iter()
        .map(|p| p.amount)
        .collect();
    assert_eq!(amounts, vec![1, 2, 3]);
}

#[test]
fn only_workers_queue_payouts() {
    let mut contract = ledger();
    assert_eq!(
        contract.store_pending_distribution(
            &"eve".to_string(),
            1,
            "alice".to_string(),
            5,
            "usdc".to_string()
        ),
        Err(ContractError::Unauthorized)
    );
    assert!(contract.get_pending_distributions("alice".to_string()).is_empty());
}

#[test]
fn binding_settles_the_payouts_that_wait_for_the_username() {
    let mut contract = ledger();
    let ids = vec![
        enqueue(&mut contract, "alice", 10, 1),
        enqueue(&mut contract, "alice", 20, 2),
        enqueue(&mut contract, "alice", 30, 3),
    ];
    let other = enqueue(&mut contract, "bob", 40, 4);
    contract
        .store_verification(
            &worker(),
            "alice".to_string(),
            "alice_x".to_string(),
            "alice.near".to_string(),
        )
        .unwrap();
    for (id, amount) in ids.iter().zip([10u128, 20, 30]) {
        let entry = contract.get_pending_distribution(id.clone()).unwrap();
        assert!(entry.claimed);
        assert_eq!(entry.amount, amount);
        assert_eq!(entry.github_username, "alice");
    }
    assert!(contract.get_pending_distributions("alice".to_string()).is_empty());
    assert!(!contract.get_pending_distribution(other).unwrap().claimed);
    assert_eq!(contract.get_pending_distributions("bob".to_string()).len(), 1);

    // A payout queued after the binding waits for the next one.
    let fourth = enqueue(&mut contract, "alice", 50, 5);
    assert!(!contract.get_pending_distribution(fourth.clone()).unwrap().claimed);
    assert_eq!(contract.get_pending_distributions("alice".to_string()).len(), 1);
    contract
        .revoke(&worker(), "alice".to_string())
        .unwrap();
    assert!(!contract.get_pending_distribution(fourth.clone()).unwrap().claimed);
    contract
        .rebind(&worker(), "alice".to_string(), "alice.near".to_string())
        .unwrap();
    assert!(contract.get_pending_distribution(fourth).unwrap().claimed);
    for id in ids {
        assert!(contract.get_pending_distribution(id).unwrap().claimed);
    }
}

#[test]
fn a_refused_binding_settles_nothing() {
    let mut contract = ledger();
    let id = enqueue(&mut contract, "alice", 10, 1);
    assert_eq!(
        contract.store_verification(
            &"eve".to_string(),
            "alice".to_string(),
            "x".to_string(),
            "eve.near".to_string()
        ),
        Err(ContractError::Unauthorized)
    );
    assert!(!contract.get_pending_distribution(id).unwrap().claimed);
}

#[test]
fn a_username_may_hold_a_dash_and_digits() {
    let mut contract = ledger();
    let a = enqueue(&mut contract, "a-1", 1, 2);
    let b = enqueue(&mut contract, "a", 1, 1);
    assert_eq!(a, "pending-a-1-2-0");
    assert_eq!(b, "pending-a-1-1");
    assert_eq!(contract.get_pending_distribution(a).unwrap().github_username, "a-1");
    assert_eq!(contract.get_pending_distribution(b).unwrap().github_username, "a");
}
