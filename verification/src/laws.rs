//! What holds of the ledger across calls.

use crate::contract::{created_split, state_wf, updated_split, ContractView};
use crate::identity::{
    bindings_wf, bound_to, cursor_start, lemma_bound_once, lemma_listing_unique, next_cursor_of,
    page_size, page_slice, rebound, sorted_by_username, survives, BindingView,
};
use crate::ledger::{history_of, with_transaction_status};
use crate::pending::settled;
use crate::registry::lemma_count_up_to;
use crate::shares::{total_percentage, PERCENTAGE_SCALE};
use crate::splits::{has_repo, has_split, lemma_valid_is_storable, valid_contributors};
use crate::text::{lemma_lex_irreflexive, lemma_lex_total, lex_less};
use crate::types::{
    ContributorView, DistributionView, PendingDistributionView, SplitView, TransactionStatus,
};
use vstd::arithmetic::div_mod::{
    lemma_fundamental_div_mod, lemma_fundamental_div_mod_converse, lemma_mod_bound,
};
use vstd::arithmetic::mul::{
    lemma_mul_inequality, lemma_mul_is_commutative, lemma_mul_is_distributive_add_other_way,
};
use vstd::prelude::*;

verus! {

/// The percentages of every list that an update accepts add up to exactly
/// 100%, and so do those of the list that is stored for it.
pub proof fn law_accepted_percentages(s: SplitView, list: Seq<ContributorView>, now: u64)
    requires
        valid_contributors(list),
    ensures
        total_percentage(list) == PERCENTAGE_SCALE,
        total_percentage(updated_split(s, list, now).contributors) == PERCENTAGE_SCALE,
{
    lemma_valid_is_storable(list);
}

/// The percentages of every split of the ledger that has contributors add up
/// to exactly 100%.
pub proof fn law_stored_percentages(v: ContractView, i: int)
    requires
        state_wf(v),
        0 <= i < v.splits.len(),
        v.splits[i].contributors.len() > 0,
    ensures
        total_percentage(v.splits[i].contributors) == PERCENTAGE_SCALE,
{
}

/// After a username is bound to an address the bindings are a bijection
/// again, whatever they were before: the pair is there, and no two bindings
/// share a username or an address.
pub proof fn law_binding_keeps_bijection(
    before: Seq<BindingView>,
    after: Seq<BindingView>,
    u: Seq<char>,
    a: Seq<char>,
)
    requires
        rebound(before, after, u, a),
    ensures
        bound_to(after, u, a),
        forall|b1: BindingView, b2: BindingView|
            after.contains(b1) && after.contains(b2) && (b1.github_username == b2.github_username
                || b1.wallet_address == b2.wallet_address) ==> b1 == b2,
{
    assert forall|b1: BindingView, b2: BindingView|
        after.contains(b1) && after.contains(b2) && (b1.github_username == b2.github_username
            || b1.wallet_address == b2.wallet_address) implies b1 == b2 by {
        lemma_bound_once(after, b1, b2);
    }
}

/// What the bindings are after a username is bound to an address is fixed by
/// what they were before: the order of the listing leaves no choice.
pub proof fn law_binding_is_determined(
    before: Seq<BindingView>,
    first: Seq<BindingView>,
    second: Seq<BindingView>,
    u: Seq<char>,
    a: Seq<char>,
)
    requires
        rebound(before, first, u, a),
        rebound(before, second, u, a),
    ensures
        first == second,
{
    lemma_listing_unique(first, second);
}

/// Binding a pair that is bound already changes no binding.
pub proof fn law_binding_again_changes_nothing(
    before: Seq<BindingView>,
    after: Seq<BindingView>,
    u: Seq<char>,
    a: Seq<char>,
)
    requires
        bindings_wf(before),
        bound_to(before, u, a),
        rebound(before, after, u, a),
    ensures
        after == before,
{
    let pair = BindingView { github_username: u, wallet_address: a };
    assert forall|b: BindingView| after.contains(b) <==> before.contains(b) by {
        if before.contains(b) && !survives(b, u, a) {
            lemma_bound_once(before, b, pair);
        }
    }
    lemma_listing_unique(after, before);
}

/// Once a repository has a split, the repository is taken: a second creation
/// for it meets a registry that has the repository.
pub proof fn law_created_repo_is_taken(
    splits: Seq<SplitView>,
    id: Seq<char>,
    repo_url: Seq<char>,
    owner: Seq<char>,
    now: u64,
)
    ensures
        has_repo(splits.push(created_split(id, repo_url, owner, now)), repo_url),
        forall|i: int|
            0 <= i < splits.len() ==> splits.push(created_split(id, repo_url, owner, now))[i]
                == splits[i],
{
    let after = splits.push(created_split(id, repo_url, owner, now));
    assert(after[splits.len() as int].repo_url == repo_url);
}

/// A distribution is added at the end of the history of its split, and the
/// history of every other split stays as it is.
pub proof fn law_history_grows(s: Seq<DistributionView>, d: DistributionView, split_id: Seq<char>)
    ensures
        d.split_id == split_id ==> history_of(s.push(d), split_id) == history_of(s, split_id).push(
            d.id,
        ),
        d.split_id != split_id ==> history_of(s.push(d), split_id) == history_of(s, split_id),
{
    assert(s.push(d).drop_last() =~= s);
}

/// An id that names no split has an empty history. So has a split that was
/// just created: its id named no split before.
pub proof fn law_no_split_no_history(
    splits: Seq<SplitView>,
    distributions: Seq<DistributionView>,
    split_id: Seq<char>,
)
    requires
        forall|k: int|
            0 <= k < distributions.len() ==> has_split(
                splits,
                (#[trigger] distributions[k]).split_id,
            ),
        !has_split(splits, split_id),
    ensures
        history_of(distributions, split_id) == Seq::<Seq<char>>::empty(),
    decreases distributions.len(),
{
    if distributions.len() > 0 {
        let front = distributions.drop_last();
        assert forall|k: int| 0 <= k < front.len() implies has_split(
            splits,
            (#[trigger] front[k]).split_id,
        ) by {
            assert(front[k] == distributions[k]);
        }
        law_no_split_no_history(splits, front, split_id);
        assert(has_split(splits, distributions[distributions.len() - 1].split_id));
    }
}

/// A status update changes the settlement hash and the status of one
/// transaction, and nothing else of the distribution.
pub proof fn law_status_update_is_local(
    d: DistributionView,
    index: int,
    tx_hash: Option<Seq<char>>,
    status: TransactionStatus,
)
    requires
        0 <= index < d.transactions.len(),
    ensures
        ({
            let after = with_transaction_status(d, index, tx_hash, status);
            &&& after.id == d.id
            &&& after.split_id == d.split_id
            &&& after.amount == d.amount
            &&& after.token_id == d.token_id
            &&& after.timestamp == d.timestamp
            &&& after.transactions.len() == d.transactions.len()
            &&& forall|j: int|
                0 <= j < d.transactions.len() && j != index ==> after.transactions[j]
                    == d.transactions[j]
            &&& after.transactions[index].recipient == d.transactions[index].recipient
            &&& after.transactions[index].amount == d.transactions[index].amount
            &&& after.transactions[index].tx_hash == tx_hash
            &&& after.transactions[index].status == status
        }),
{
}

/// Settling the payouts of a username marks exactly those as claimed: no
/// entry is added or taken out, an entry of the username is claimed
/// afterwards, and every other entry is as it was.
pub proof fn law_settling_claims(s: Seq<PendingDistributionView>, username: Seq<char>, i: int)
    requires
        0 <= i < s.len(),
    ensures
        settled(s, username).len() == s.len(),
        s[i].github_username == username ==> settled(s, username)[i] == (PendingDistributionView {
            claimed: true,
            ..s[i]
        }),
        s[i].github_username != username ==> settled(s, username)[i] == s[i],
{
}

/// The cursor with which page `k` of a walk through the listing is asked
/// for: none for the first page, and for every later page what the page
/// before it handed out.
pub open spec fn walk_cursor(s: Seq<BindingView>, size: nat, k: nat) -> Option<Seq<char>>
    decreases k,
{
    if k == 0 {
        None
    } else {
        let before = walk_cursor(s, size, (k - 1) as nat);
        next_cursor_of(page_slice(s, cursor_start(s, before), size), size)
    }
}

/// Page `k` of a walk through the listing with pages of `size` entries.
pub open spec fn walk_page(s: Seq<BindingView>, size: nat, k: nat) -> Seq<BindingView> {
    page_slice(s, cursor_start(s, walk_cursor(s, size, k)), size)
}

/// The end of page `k`: the end of the listing, or the start of the next
/// page.
pub open spec fn page_end(len: nat, size: nat, k: nat) -> nat {
    if (k + 1) * size < len {
        (k + 1) * size
    } else {
        len
    }
}

/// A walk by cursor cuts the listing into consecutive pages: as long as the
/// pages before it were full, page `k` holds the entries from position
/// `k * size` on, in the order of the usernames, and it hands out a cursor
/// exactly if it is full.
pub proof fn law_cursor_walk(s: Seq<BindingView>, size: nat, k: nat)
    requires
        bindings_wf(s),
        size > 0,
        k * size <= s.len(),
    ensures
        cursor_start(s, walk_cursor(s, size, k)) == k * size,
        walk_page(s, size, k) == s.subrange((k * size) as int, page_end(s.len(), size, k) as int),
        sorted_by_username(walk_page(s, size, k)),
        next_cursor_of(walk_page(s, size, k), size) is Some <==> (k + 1) * size <= s.len(),
    decreases k,
{
    assert((k + 1) * size == k * size + size) by {
        lemma_mul_is_distributive_add_other_way(size as int, k as int, 1);
    }
    if k > 0 {
        let j = (k - 1) as nat;
        assert(k * size == j * size + size) by {
            lemma_mul_is_distributive_add_other_way(size as int, j as int, 1);
        }
        law_cursor_walk(s, size, j);
        let before = walk_page(s, size, j);
        assert(before.len() == size);
        let last = (k * size - 1) as int;
        assert(before.last() == s[last]);
        let cursor = s[last].github_username;
        assert(walk_cursor(s, size, k) == Some(cursor));
        assert forall|m: int| 0 <= m < k * size implies !lex_less(
            cursor,
            (#[trigger] s[m]).github_username,
        ) by {
            if m < last {
                lemma_lex_total(cursor, s[m].github_username);
            } else {
                lemma_lex_irreflexive(cursor);
            }
        }
        lemma_count_up_to(s, cursor, (k * size) as int);
    }
    let page = walk_page(s, size, k);
    assert(page =~= s.subrange((k * size) as int, page_end(s.len(), size, k) as int));
    assert forall|x: int, y: int| 0 <= x < y < page.len() implies lex_less(
        (#[trigger] page[x]).github_username,
        (#[trigger] page[y]).github_username,
    ) by {
        assert(page[x] == s[k * size + x] && page[y] == s[k * size + y]);
    }
}

/// A walk by cursor through a listing of `n` entries, `size` to a page, is
/// over with page `n / size`: every page before it is full and hands out a
/// cursor, and that page holds the `n % size` entries that are left and
/// hands out none. Where `size` does not divide `n`, these are `n / size`
/// rounded up pages; where it does, the last page is empty.
pub proof fn law_cursor_walk_ends(s: Seq<BindingView>, size: nat, k: nat)
    requires
        bindings_wf(s),
        size > 0,
        k <= s.len() / size,
    ensures
        k < s.len() / size ==> walk_page(s, size, k).len() == size && next_cursor_of(
            walk_page(s, size, k),
            size,
        ) is Some,
        k == s.len() / size ==> walk_page(s, size, k).len() == s.len() % size && next_cursor_of(
            walk_page(s, size, k),
            size,
        ) is None,
        s.len() % size != 0 ==> s.len() / size + 1 == (s.len() + size - 1) / (size as int),
{
    let n = s.len() as int;
    let q = n / (size as int);
    lemma_fundamental_div_mod(n, size as int);
    lemma_mod_bound(n, size as int);
    assert(k * size <= q * size) by {
        lemma_mul_inequality(k as int, q, size as int);
    }
    assert((k + 1) * size == k * size + size) by {
        lemma_mul_is_distributive_add_other_way(size as int, k as int, 1);
    }
    assert(size * q == q * size) by {
        lemma_mul_is_commutative(size as int, q);
    }
    law_cursor_walk(s, size, k);
    if k < q {
        assert((k + 1) * size <= q * size) by {
            lemma_mul_inequality((k + 1) as int, q, size as int);
        }
    }
    if n % (size as int) != 0 {
        let r = n % (size as int);
        assert(n + size - 1 == size * (q + 1) + (r - 1)) by {
            lemma_mul_is_distributive_add_other_way(size as int, q, 1);
            lemma_mul_is_commutative(size as int, q + 1);
        }
        lemma_fundamental_div_mod_converse(n + size - 1, size as int, q + 1, r - 1);
    }
}

/// The page size never exceeds the cap, whatever limit is asked for.
pub proof fn law_page_size_capped(limit: nat)
    ensures
        page_size(limit) <= 200,
        page_size(limit) <= limit,
        limit <= 200 ==> page_size(limit) == limit,
{
}

} // verus!
