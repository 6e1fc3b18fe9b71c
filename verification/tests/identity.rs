use gitsplits::{
    Attestation, ContractError, Contributor, GitSplitsContract, RepoVerificationStatus,
    Verification, PERCENTAGE_SCALE,
};

fn worker() -> String {
    "worker.near".to_string()
}

fn ledger() -> GitSplitsContract {
    let mut contract = GitSplitsContract::new("owner.near".to_string());
    let attestation = Attestation { quote: "q".to_string(), endorsements: "e".to_string() };
    contract
        .register_worker(&worker(), 1, attestation, "hash".to_string())
        .unwrap();
    contract
}

fn bind(contract: &mut GitSplitsContract, name: &str, address: &str) {
    contract
        .store_verification(
            &worker(),
            name.to_string(),
            format!("x_{}", name),
            address.to_string(),
        )
        .unwrap();
}

fn entry(name: &str, address: &str, x: Option<&str>) -> Verification {
    Verification {
        github_username: name.to_string(),
        wallet_address: address.to_string(),
        x_username: x.map(|s| s.to_string()),
    }
}

fn all(contract: &GitSplitsContract) -> Vec<(String, String)> {
    contract
        .list_page(0, 200)
        .into_iter()
        .map(|v| (v.github_username, v.wallet_address))
        .collect()
}

fn assert_bijection(contract: &GitSplitsContract) {
    let pairs = all(contract);
    for (i, a) in pairs.iter().enumerate() {
        for (j, b) in pairs.iter().enumerate() {
            if i != j {
                assert_ne!(a.0, b.0);
                assert_ne!(a.1, b.1);
            }
        }
        assert_eq!(contract.get_wallet_address(a.0.clone()), Some(a.1.clone()));
        assert_eq!(contract.get_github_by_wallet(a.1.clone()), Some(a.0.clone()));
    }
}

#[test]
fn binding_returns_the_entry_in_canonical_form() {
    let mut contract = ledger();
    let stored = contract
        .store_verification(
            &worker(),
            " @Alice ".to_string(),
            "alice_x".to_string(),
            "alice.near".to_string(),
        )
        .unwrap();
    assert_eq!(stored, entry("alice", "alice.near", Some("alice_x")));
    assert!(contract.is_github_verified("ALICE".to_string()));
    assert!(contract.is_github_verified("@alice".to_string()));
    assert!(!contract.is_github_verified("bob".to_string()));
    assert_eq!(contract.get_wallet_address("Alice".to_string()), Some("alice.near".to_string()));
    assert_eq!(contract.get_github_by_wallet("alice.near".to_string()), Some("alice".to_string()));
    assert_eq!(contract.get_x_username(" alice".to_string()), Some("alice_x".to_string()));
    assert_eq!(contract.get_wallet_address("bob".to_string()), None);
    assert_eq!(contract.get_github_by_wallet("bob.near".to_string()), None);
    assert_eq!(contract.get_x_username("bob".to_string()), None);
}

#[test]
fn an_empty_username_is_refused() {
    let mut contract = ledger();
    assert_eq!(
        contract.store_verification(
            &worker(),
            "  @ ".to_string(),
            "x".to_string(),
            "a.near".to_string()
        ),
        Err(ContractError::InvalidArgument)
    );
    assert_eq!(
        contract.rebind(&worker(), "".to_string(), "a.near".to_string()),
        Err(ContractError::InvalidArgument)
    );
    assert!(all(&contract).is_empty());
    assert_eq!(contract.get_github_by_wallet("a.near".to_string()), None);
}

#[test]
fn only_workers_change_identities() {
    let mut contract = ledger();
    bind(&mut contract, "alice", "alice.near");
    let eve = "eve".to_string();
    assert_eq!(
        contract.store_verification(
            &eve,
            "alice".to_string(),
            "x".to_string(),
            "eve.near".to_string()
        ),
        Err(ContractError::Unauthorized)
    );
    assert_eq!(
        contract.rebind(&eve, "alice".to_string(), "eve.near".to_string()),
        Err(ContractError::Unauthorized)
    );
    assert_eq!(contract.revoke(&eve, "alice".to_string()), Err(ContractError::Unauthorized));
    // The caller is checked before the username.
    assert_eq!(
        contract.store_verification(&eve, "".to_string(), "x".to_string(), "e".to_string()),
        Err(ContractError::Unauthorized)
    );
    assert_eq!(all(&contract), vec![("alice".to_string(), "alice.near".to_string())]);
    assert_eq!(contract.get_x_username("alice".to_string()), Some("x_alice".to_string()));
}

#[test]
fn a_new_address_for_a_username_replaces_the_old_one() {
    let mut contract = ledger();
    bind(&mut contract, "alice", "one.near");
    bind(&mut contract, "alice", "two.near");
    assert_eq!(all(&contract), vec![("alice".to_string(), "two.near".to_string())]);
    assert_eq!(contract.get_github_by_wallet("one.near".to_string()), None);
    assert_bijection(&contract);
}

#[test]
fn a_new_username_for_an_address_replaces_the_old_one() {
    let mut contract = ledger();
    bind(&mut contract, "alice", "one.near");
    bind(&mut contract, "bob", "one.near");
    assert_eq!(all(&contract), vec![("bob".to_string(), "one.near".to_string())]);
    assert!(!contract.is_github_verified("alice".to_string()));
    // The social handle of the unbound username is a mapping of its own.
    assert_eq!(contract.get_x_username("alice".to_string()), Some("x_alice".to_string()));
    assert_bijection(&contract);
}

#[test]
fn binding_across_two_pairs_unbinds_both() {
    let mut contract = ledger();
    bind(&mut contract, "alice", "one.near");
    bind(&mut contract, "bob", "two.near");
    bind(&mut contract, "carol", "three.near");
    bind(&mut contract, "alice", "two.near");
    assert_eq!(
        all(&contract),
        vec![
            ("alice".to_string(), "two.near".to_string()),
            ("carol".to_string(), "three.near".to_string()),
        ]
    );
    assert_bijection(&contract);
}

#[test]
fn binding_the_same_pair_again_changes_only_the_handle() {
    let mut contract = ledger();
    bind(&mut contract, "bob", "two.near");
    bind(&mut contract, "alice", "one.near");
    let before = all(&contract);
    contract
        .store_verification(
            &worker(),
            "Alice".to_string(),
            "new_handle".to_string(),
            "one.near".to_string(),
        )
        .unwrap();
    assert_eq!(all(&contract), before);
    assert_eq!(contract.get_x_username("alice".to_string()), Some("new_handle".to_string()));
}

#[test]
fn rebinding_leaves_the_handles_alone() {
    let mut contract = ledger();
    bind(&mut contract, "alice", "one.near");
    assert_eq!(contract.rebind(&worker(), "@ALICE".to_string(), "two.near".to_string()), Ok(true));
    assert_eq!(contract.get_wallet_address("alice".to_string()), Some("two.near".to_string()));
    assert_eq!(contract.get_x_username("alice".to_string()), Some("x_alice".to_string()));
    assert_eq!(contract.rebind(&worker(), "dave".to_string(), "four.near".to_string()), Ok(true));
    assert_eq!(contract.get_x_username("dave".to_string()), None);
    assert_eq!(
        contract.list_page(0, 10),
        vec![
            entry("alice", "two.near", Some("x_alice")),
            entry("dave", "four.near", None),
        ]
    );
    assert_bijection(&contract);
}

#[test]
fn the_bindings_stay_a_bijection() {
    let mut contract = ledger();
    let names = ["a", "b", "c", "d", "e"];
    let addresses = ["w1", "w2", "w3", "w4"];
    let mut step: usize = 0;
    while step < 60 {
        let name = names[(step * 7 + step / 3) % names.len()];
        let address = addresses[(step * 5 + step / 4) % addresses.len()];
        if step % 2 == 0 {
            bind(&mut contract, name, address);
        } else {
            contract
                .rebind(&worker(), name.to_string(), address.to_string())
                .unwrap();
        }
        assert_eq!(contract.get_wallet_address(name.to_string()), Some(address.to_string()));
        assert_eq!(contract.get_github_by_wallet(address.to_string()), Some(name.to_string()));
        assert_bijection(&contract);
        step += 1;
    }
}

#[test]
fn revoking_takes_binding_and_handle_away() {
    let mut contract = ledger();
    bind(&mut contract, "alice", "one.near");
    bind(&mut contract, "bob", "two.near");
    assert_eq!(contract.revoke(&worker(), " @Alice".to_string()), Ok(true));
    assert!(!contract.is_github_verified("alice".to_string()));
    assert_eq!(contract.get_x_username("alice".to_string()), None);
    assert_eq!(contract.get_github_by_wallet("one.near".to_string()), None);
    assert_eq!(all(&contract), vec![("bob".to_string(), "two.near".to_string())]);
    assert_eq!(contract.revoke(&worker(), "alice".to_string()), Ok(false));
    assert_eq!(contract.revoke(&worker(), "nobody".to_string()), Ok(false));
}

#[test]
fn revoking_a_handle_without_a_binding_counts() {
    let mut contract = ledger();
    bind(&mut contract, "alice", "one.near");
    bind(&mut contract, "bob", "one.near");
    // alice lost the address to bob and kept the handle.
    assert_eq!(contract.revoke(&worker(), "alice".to_string()), Ok(true));
    assert_eq!(contract.get_x_username("alice".to_string()), None);
    assert_eq!(contract.revoke(&worker(), "alice".to_string()), Ok(false));
}

fn populated(n: usize) -> GitSplitsContract {
    let mut contract = ledger();
    // Bound out of order; the listing is by username.
    let mut k: usize = 0;
    while k < n {
        let i = (k * 37) % n;
        bind(&mut contract, &format!("user{:03}", i), &format!("wallet{}", i));
        k += 1;
    }
    contract
}

fn walk(contract: &GitSplitsContract, limit: usize) -> Vec<Vec<String>> {
    let mut pages: Vec<Vec<String>> = Vec::new();
    let mut cursor: Option<String> = None;
    loop {
        let page = contract.list_cursor(cursor.clone(), limit);
        pages.push(page.entries.iter().map(|v| v.github_username.clone()).collect());
        match page.next_cursor {
            Some(next) => {
                assert_eq!(Some(&next), pages.last().unwrap().last());
                cursor = Some(next);
            }
            None => break,
        }
        assert!(pages.len() < 1000);
    }
    pages
}

#[test]
fn the_listing_is_in_the_order_of_the_usernames() {
    let contract = populated(23);
    let names: Vec<String> = all(&contract).into_iter().map(|p| p.0).collect();
    let expected: Vec<String> = (0..23).map(|i| format!("user{:03}", i)).collect();
    assert_eq!(names, expected);
}

#[test]
fn a_walk_by_cursor_visits_every_entry_once() {
    for (n, limit) in [(10usize, 3usize), (7, 7), (7, 8), (1, 1), (23, 5), (5, 200), (0, 4)] {
        let contract = populated(n);
        let pages = walk(&contract, limit);
        let visited: Vec<String> = pages.iter().flatten().cloned().collect();
        let expected: Vec<String> = (0..n).map(|i| format!("user{:03}", i)).collect();
        assert_eq!(visited, expected);
        for page in &pages {
            assert!(page.len() <= limit);
            assert!(page.windows(2).all(|w| w[0] <= w[1]));
        }
        let full = n / limit;
        assert!(pages[..full].iter().all(|p| p.len() == limit));
        assert_eq!(pages.len(), full + 1);
        assert_eq!(pages[full].len(), n % limit);
    }
}

#[test]
fn a_walk_takes_the_rounded_up_number_of_pages() {
    // Ten entries, three to a page: four pages, the last one not full.
    let contract = populated(10);
    let pages = walk(&contract, 3);
    assert_eq!(pages.len(), 4);
    assert_eq!(pages[3], vec!["user009".to_string()]);
    assert_eq!(contract.list_cursor(Some("user008".to_string()), 3).next_cursor, None);
}

#[test]
fn a_full_last_page_is_followed_by_an_empty_one() {
    let contract = populated(6);
    let last = contract.list_cursor(Some("user002".to_string()), 3);
    assert_eq!(last.entries.len(), 3);
    assert_eq!(last.next_cursor, Some("user005".to_string()));
    let end = contract.list_cursor(last.next_cursor, 3);
    assert!(end.entries.is_empty());
    assert_eq!(end.next_cursor, None);
}

#[test]
fn a_cursor_need_not_be_a_username_of_the_listing() {
    let contract = populated(5);
    let page = contract.list_cursor(Some("user001x".to_string()), 2);
    let names: Vec<String> = page.entries.into_iter().map(|v| v.github_username).collect();
    assert_eq!(names, vec!["user002".to_string(), "user003".to_string()]);
    assert_eq!(page.next_cursor, Some("user003".to_string()));
    assert!(contract.list_cursor(Some("zzz".to_string()), 2).entries.is_empty());
    assert_eq!(contract.list_cursor(Some("".to_string()), 9).entries.len(), 5);
}

#[test]
fn a_limit_of_zero_gives_an_empty_page_without_a_cursor() {
    let contract = populated(5);
    let page = contract.list_cursor(None, 0);
    assert!(page.entries.is_empty());
    assert_eq!(page.next_cursor, None);
    assert!(contract.list_page(0, 0).is_empty());
}

#[test]
fn pages_are_capped_at_two_hundred() {
    let contract = populated(250);
    assert_eq!(contract.list_page(0, 1000).len(), 200);
    assert_eq!(contract.list_page(100, usize::MAX).len(), 150);
    let page = contract.list_cursor(None, 100_000);
    assert_eq!(page.entries.len(), 200);
    assert_eq!(page.next_cursor, Some("user199".to_string()));
    let rest = contract.list_cursor(page.next_cursor, 100_000);
    assert_eq!(rest.entries.len(), 50);
    assert_eq!(rest.next_cursor, None);
}

#[test]
fn pages_by_offset() {
    let contract = populated(10);
    let names = |page: Vec<Verification>| -> Vec<String> {
        page.into_iter().map(|v| v.github_username).collect()
    };
    assert_eq!(names(contract.list_page(0, 3)), vec!["user000", "user001", "user002"]);
    assert_eq!(names(contract.list_page(8, 3)), vec!["user008", "user009"]);
    assert!(contract.list_page(10, 3).is_empty());
    assert!(contract.list_page(usize::MAX, usize::MAX).is_empty());
    assert_eq!(
        contract.list_page(4, 1),
        vec![entry("user004", "wallet4", Some("x_user004"))]
    );
}

#[test]
fn the_status_of_a_repository_parts_its_contributors() {
    let mut contract = ledger();
    let id = contract
        .create_split(&worker(), 1, "repo".to_string(), "o".to_string())
        .unwrap();
    assert_eq!(
        contract.repo_verification_status("repo".to_string()),
        Some(RepoVerificationStatus { verified: vec![], unverified: vec![] })
    );
    let part = PERCENTAGE_SCALE / 4;
    let list = ["dave", "Alice", "carol", "bob"]
        .iter()
        .map(|n| Contributor { github_username: n.to_string(), account_id: None, percentage: part })
        .collect();
    contract.update_split(&worker(), 2, id, list).unwrap();
    bind(&mut contract, "bob", "bob.near");
    contract
        .rebind(&worker(), "alice".to_string(), "alice.near".to_string())
        .unwrap();
    bind(&mut contract, "zed", "zed.near");
    assert_eq!(
        contract.repo_verification_status("repo".to_string()),
        Some(RepoVerificationStatus {
            verified: vec![
                entry("alice", "alice.near", None),
                entry("bob", "bob.near", Some("x_bob")),
            ],
            unverified: vec!["dave".to_string(), "carol".to_string()],
        })
    );
    assert_eq!(contract.repo_verification_status("other".to_string()), None);
}
