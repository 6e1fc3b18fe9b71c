use gitsplits::{Attestation, ContractError, GitSplitsContract};

fn attestation() -> Attestation {
    Attestation {
        quote: "test_quote".to_string(),
        endorsements: "test_endorsements".to_string(),
    }
}

#[test]
fn test_new() {
    let contract = GitSplitsContract::new("bob".to_string());
    assert_eq!(contract.owner(), "bob".to_string());
}

#[test]
fn test_register_worker() {
    let caller = "bob".to_string();
    let mut contract = GitSplitsContract::new("bob".to_string());

    // Register a worker
    let result = contract
        .register_worker(&caller, 0, attestation(), "test_code_hash".to_string())
        .unwrap();
    assert!(result);

    // Check if worker is registered
    assert!(contract.is_worker_registered("bob".to_string()));
}

#[test]
fn test_create_split() {
    let caller = "bob".to_string();
    let mut contract = GitSplitsContract::new("bob".to_string());

    // Register a worker
    contract
        .register_worker(&caller, 0, attestation(), "test_code_hash".to_string())
        .unwrap();

    // Create a split
    let repo_url = "github.com/test/repo".to_string();
    let split_id = contract
        .create_split(&caller, 0, repo_url.clone(), "charlie".to_string())
        .unwrap();

    // Check if split was created
    let split = contract.get_split(split_id.clone()).unwrap();
    assert_eq!(split.repo_url, repo_url);
    assert_eq!(split.owner, "charlie".to_string());
}

#[test]
fn owner_is_recognised() {
    let contract = GitSplitsContract::new("bob".to_string());
    assert!(contract.is_owner(&"bob".to_string()));
    assert!(!contract.is_owner(&"alice".to_string()));
}

#[test]
fn first_registration_is_open_to_anyone() {
    let mut contract = GitSplitsContract::new("bob".to_string());
    let alice = "alice".to_string();
    assert_eq!(
        contract.register_worker(&alice, 7, attestation(), "hash".to_string()),
        Ok(true)
    );
    assert!(contract.is_worker_registered("alice".to_string()));
    assert!(!contract.is_worker_registered("bob".to_string()));
}

#[test]
fn registration_closes_once_the_owner_is_registered() {
    let mut contract = GitSplitsContract::new("bob".to_string());
    let bob = "bob".to_string();
    let alice = "alice".to_string();
    assert_eq!(
        contract.register_worker(&bob, 1, attestation(), "hash".to_string()),
        Ok(true)
    );
    assert_eq!(
        contract.register_worker(&alice, 2, attestation(), "hash".to_string()),
        Err(ContractError::Unauthorized)
    );
    assert!(!contract.is_worker_registered("alice".to_string()));
    // The owner may always register again.
    assert_eq!(
        contract.register_worker(&bob, 3, attestation(), "other".to_string()),
        Ok(true)
    );
}

#[test]
fn chain_signature_is_a_placeholder_for_workers_only() {
    let mut contract = GitSplitsContract::new("bob".to_string());
    let bob = "bob".to_string();
    let eve = "eve".to_string();
    assert_eq!(
        contract.generate_chain_signature(&bob, "near".to_string(), "tx".to_string()),
        Err(ContractError::Unauthorized)
    );
    contract
        .register_worker(&bob, 0, attestation(), "hash".to_string())
        .unwrap();
    let signature = contract
        .generate_chain_signature(&bob, "near".to_string(), "tx".to_string())
        .unwrap();
    assert_eq!(signature.signature, "signature_placeholder");
    assert_eq!(signature.public_key, "public_key_placeholder");
    assert_eq!(signature.chain_id, "near");
    assert_eq!(
        contract.generate_chain_signature(&eve, "near".to_string(), "tx".to_string()),
        Err(ContractError::Unauthorized)
    );
}
