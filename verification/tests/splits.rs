use gitsplits::{
    Attestation, ContractError, Contributor, GitSplitsContract, Split, MAX_CONTRIBUTORS,
    PERCENTAGE_SCALE,
};

const PERCENT: u128 = PERCENTAGE_SCALE / 100;

fn worker() -> String {
    "worker.near".to_string()
}

fn ledger() -> GitSplitsContract {
    let mut contract = GitSplitsContract::new("owner.near".to_string());
    let attestation = Attestation { quote: "q".to_string(), endorsements: "e".to_string() };
    contract
        .register_worker(&worker(), 1, attestation, "hash".to_string())
        .unwrap();
    contract
}

fn contributor(name: &str, percentage: u128) -> Contributor {
    Contributor { github_username: name.to_string(), account_id: None, percentage }
}

fn split_of(contract: &GitSplitsContract, id: &str) -> Split {
    contract.get_split(id.to_string()).unwrap()
}

#[test]
fn a_new_split_has_no_contributors() {
    let mut contract = ledger();
    let id = contract
        .create_split(&worker(), 10, "github.com/a/b".to_string(), "alice.near".to_string())
        .unwrap();
    assert_eq!(id, "split-0");
    assert_eq!(
        split_of(&contract, &id),
        Split {
            id: "split-0".to_string(),
            repo_url: "github.com/a/b".to_string(),
            owner: "alice.near".to_string(),
            contributors: vec![],
            created_at: 10,
            updated_at: 10,
        }
    );
    assert!(contract.distribution_history(id).is_empty());
}

#[test]
fn split_ids_never_repeat() {
    let mut contract = ledger();
    let mut ids: Vec<String> = Vec::new();
    for n in 0..12 {
        let id = contract
            .create_split(&worker(), 5, format!("github.com/r/{}", n), "o".to_string())
            .unwrap();
        assert_eq!(id, format!("split-{}", n));
        assert!(!ids.contains(&id));
        ids.push(id);
    }
}

#[test]
fn a_repository_has_one_split() {
    let mut contract = ledger();
    let id = contract
        .create_split(&worker(), 10, "github.com/a/b".to_string(), "alice.near".to_string())
        .unwrap();
    let first = split_of(&contract, &id);
    assert_eq!(
        contract.create_split(&worker(), 20, "github.com/a/b".to_string(), "bob.near".to_string()),
        Err(ContractError::AlreadyExists)
    );
    assert_eq!(split_of(&contract, &id), first);
    assert_eq!(contract.get_split_by_repo("github.com/a/b".to_string()), Some(first));
    assert_eq!(contract.get_split("split-1".to_string()), None);
}

#[test]
fn only_workers_create_splits() {
    let mut contract = ledger();
    assert_eq!(
        contract.create_split(&"eve".to_string(), 1, "r".to_string(), "o".to_string()),
        Err(ContractError::Unauthorized)
    );
    assert_eq!(contract.get_split_by_repo("r".to_string()), None);
}

#[test]
fn lookups_of_unknown_splits_are_absent() {
    let contract = ledger();
    assert_eq!(contract.get_split("split-0".to_string()), None);
    assert_eq!(contract.get_split_by_repo("github.com/a/b".to_string()), None);
}

#[test]
fn an_update_stores_the_list_in_canonical_form() {
    let mut contract = ledger();
    let id = contract
        .create_split(&worker(), 10, "repo".to_string(), "o".to_string())
        .unwrap();
    let list = vec![
        Contributor {
            github_username: " @Alice ".to_string(),
            account_id: Some("alice.near".to_string()),
            percentage: 60 * PERCENT,
        },
        contributor("BOB", 40 * PERCENT),
    ];
    assert_eq!(contract.update_split(&worker(), 30, id.clone(), list), Ok(true));
    let split = split_of(&contract, &id);
    assert_eq!(
        split.contributors,
        vec![
            Contributor {
                github_username: "alice".to_string(),
                account_id: Some("alice.near".to_string()),
                percentage: 60 * PERCENT,
            },
            contributor("bob", 40 * PERCENT),
        ]
    );
    assert_eq!(split.created_at, 10);
    assert_eq!(split.updated_at, 30);
    let total: u128 = split.contributors.iter().map(|c| c.percentage).sum();
    assert_eq!(total, PERCENTAGE_SCALE);
}

fn assert_rejected(list: Vec<Contributor>) {
    let mut contract = ledger();
    let id = contract
        .create_split(&worker(), 10, "repo".to_string(), "o".to_string())
        .unwrap();
    let good = vec![contributor("alice", 70 * PERCENT), contributor("bob", 30 * PERCENT)];
    assert_eq!(contract.update_split(&worker(), 20, id.clone(), good), Ok(true));
    let before = split_of(&contract, &id);
    assert_eq!(
        contract.update_split(&worker(), 30, id.clone(), list),
        Err(ContractError::InvalidArgument)
    );
    assert_eq!(split_of(&contract, &id), before);
}

#[test]
fn a_sum_below_the_scale_is_rejected() {
    assert_rejected(vec![contributor("a", 60 * PERCENT), contributor("b", 40 * PERCENT - 1)]);
}

#[test]
fn a_sum_above_the_scale_is_rejected() {
    assert_rejected(vec![contributor("a", 60 * PERCENT), contributor("b", 40 * PERCENT + 1)]);
    assert_rejected(vec![contributor("a", u128::MAX), contributor("b", u128::MAX)]);
    assert_rejected(vec![contributor("a", PERCENTAGE_SCALE), contributor("b", u128::MAX)]);
}

#[test]
fn an_empty_list_is_rejected() {
    assert_rejected(vec![]);
}

#[test]
fn an_empty_username_is_rejected() {
    assert_rejected(vec![contributor("a", 60 * PERCENT), contributor("  @ ", 40 * PERCENT)]);
    assert_rejected(vec![contributor("", PERCENTAGE_SCALE)]);
}

#[test]
fn a_username_twice_is_rejected() {
    assert_rejected(vec![contributor("alice", 60 * PERCENT), contributor("alice", 40 * PERCENT)]);
    assert_rejected(vec![contributor("Alice", 60 * PERCENT), contributor("@alice ", 40 * PERCENT)]);
}

#[test]
fn a_zero_percentage_is_rejected() {
    assert_rejected(vec![contributor("a", PERCENTAGE_SCALE), contributor("b", 0)]);
}

#[test]
fn the_list_is_bounded() {
    assert_eq!(MAX_CONTRIBUTORS, 200);
    let part = PERCENTAGE_SCALE / 200;
    let full: Vec<Contributor> =
        (0..200).map(|n| contributor(&format!("user{}", n), part)).collect();
    let mut contract = ledger();
    let id = contract
        .create_split(&worker(), 10, "repo".to_string(), "o".to_string())
        .unwrap();
    assert_eq!(contract.update_split(&worker(), 20, id.clone(), full), Ok(true));
    assert_eq!(split_of(&contract, &id).contributors.len(), 200);

    let mut too_long: Vec<Contributor> =
        (0..200).map(|n| contributor(&format!("user{}", n), part)).collect();
    too_long[0].percentage = part - 1;
    too_long.push(contributor("one-more", 1));
    assert_rejected(too_long);
}

#[test]
fn an_unknown_split_is_not_found() {
    let mut contract = ledger();
    assert_eq!(
        contract.update_split(
            &worker(),
            20,
            "split-9".to_string(),
            vec![contributor("a", PERCENTAGE_SCALE)]
        ),
        Err(ContractError::NotFound)
    );
    // The split is looked up before the list is checked.
    assert_eq!(
        contract.update_split(&worker(), 20, "split-9".to_string(), vec![]),
        Err(ContractError::NotFound)
    );
}

#[test]
fn only_workers_update_splits() {
    let mut contract = ledger();
    let id = contract
        .create_split(&worker(), 10, "repo".to_string(), "o".to_string())
        .unwrap();
    assert_eq!(
        contract.update_split(
            &"eve".to_string(),
            20,
            id.clone(),
            vec![contributor("a", PERCENTAGE_SCALE)]
        ),
        Err(ContractError::Unauthorized)
    );
    assert!(split_of(&contract, &id).contributors.is_empty());
}

#[test]
fn an_update_replaces_the_whole_list() {
    let mut contract = ledger();
    let id = contract
        .create_split(&worker(), 10, "repo".to_string(), "o".to_string())
        .unwrap();
    contract
        .update_split(
            &worker(),
            20,
            id.clone(),
            vec![contributor("a", 50 * PERCENT), contributor("b", 50 * PERCENT)],
        )
        .unwrap();
    contract
        .update_split(&worker(), 30, id.clone(), vec![contributor("c", PERCENTAGE_SCALE)])
        .unwrap();
    assert_eq!(split_of(&contract, &id).contributors, vec![contributor("c", PERCENTAGE_SCALE)]);
    assert_eq!(split_of(&contract, &id).updated_at, 30);
}
