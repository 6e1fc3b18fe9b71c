//! The distribution ledger: how an amount paid to a split is divided into
//! one transaction per contributor.

use crate::identity::{has_username, lemma_recipient_bound, recipient_of, BindingView};
use crate::pending::{pending_id, PendingQueue};
use crate::registry::IdentityRegistry;
use crate::shares::{
    compute_share, lemma_shares_within_amount, share_of, total_percentage, total_shares,
    PERCENTAGE_SCALE,
};
use crate::splits::stored_contributors_wf;
use crate::text::{decimal, lemma_decimal_injective, push_decimal};
use crate::types::{
    Contributor, ContributorView, Distribution, DistributionView, PendingDistributionView,
    Transaction, TransactionStatus, TransactionView,
};
use vstd::prelude::*;

verus! {

/// The id of the distribution that was recorded at position `index`.
pub open spec fn distribution_id(index: nat) -> Seq<char> {
    "dist-"@ + decimal(index)
}

/// The token under which a payout is queued: the distribution's token, or
/// `NEAR` for a distribution that names none.
pub open spec fn token_name(token_id: Option<Seq<char>>) -> Seq<char> {
    match token_id {
        Some(t) => t,
        None => "NEAR"@,
    }
}

/// The transaction of one contributor in a distribution of `amount`: the
/// contributor's share, to the address bound to the username or to the
/// pending sentinel, not settled yet.
pub open spec fn transaction_for(
    c: ContributorView,
    amount: nat,
    bindings: Seq<BindingView>,
) -> TransactionView {
    TransactionView {
        recipient: recipient_of(bindings, c.github_username),
        amount: share_of(amount, c.percentage),
        tx_hash: None,
        status: TransactionStatus::Pending,
    }
}

/// The transactions of a distribution: one per contributor, in the order of
/// the contributor list.
pub open spec fn transactions_for(
    list: Seq<ContributorView>,
    amount: nat,
    bindings: Seq<BindingView>,
) -> Seq<TransactionView> {
    list.map_values(|c: ContributorView| transaction_for(c, amount, bindings))
}

/// The queue after a distribution: behind what it held, one payout for each
/// contributor whose username is bound to no address, in the order of the
/// contributor list.
pub open spec fn payouts_queued(
    queue: Seq<PendingDistributionView>,
    list: Seq<ContributorView>,
    amount: nat,
    token: Seq<char>,
    now: u64,
    bindings: Seq<BindingView>,
) -> Seq<PendingDistributionView>
    decreases list.len(),
{
    if list.len() == 0 {
        queue
    } else {
        let before = payouts_queued(queue, list.drop_last(), amount, token, now, bindings);
        let c = list.last();
        if has_username(bindings, c.github_username) {
            before
        } else {
            before.push(
                PendingDistributionView {
                    id: pending_id(c.github_username, now, before.len()),
                    github_username: c.github_username,
                    amount: share_of(amount, c.percentage),
                    token,
                    timestamp: now,
                    claimed: false,
                },
            )
        }
    }
}

/// The sum of the amounts of a transaction list.
pub open spec fn total_paid(list: Seq<TransactionView>) -> nat
    decreases list.len(),
{
    if list.len() == 0 {
        0
    } else {
        total_paid(list.drop_last()) + list.last().amount
    }
}

/// What holds of every recorded distribution: a positive amount, at least
/// one transaction, and transactions that together pay no more than the
/// amount.
pub open spec fn distribution_wf(d: DistributionView) -> bool {
    &&& d.amount > 0
    &&& d.transactions.len() > 0
    &&& total_paid(d.transactions) <= d.amount
}

/// Every distribution carries the id of its position and is as a recorded
/// distribution must be.
pub open spec fn distributions_wf(s: Seq<DistributionView>) -> bool {
    &&& forall|i: int| 0 <= i < s.len() ==> (#[trigger] s[i]).id == distribution_id(i as nat)
    &&& forall|i: int| 0 <= i < s.len() ==> distribution_wf(#[trigger] s[i])
}

/// Whether some distribution of `s` has the id `id`.
pub open spec fn has_distribution(s: Seq<DistributionView>, id: Seq<char>) -> bool {
    exists|i: int| 0 <= i < s.len() && (#[trigger] s[i]).id == id
}

/// The position of the distribution with the id `id`.
pub open spec fn index_of_distribution(s: Seq<DistributionView>, id: Seq<char>) -> int {
    choose|i: int| 0 <= i < s.len() && (#[trigger] s[i]).id == id
}

/// The ids of the distributions made against the split `split_id`, in the
/// order in which they were made.
pub open spec fn history_of(s: Seq<DistributionView>, split_id: Seq<char>) -> Seq<Seq<char>>
    decreases s.len(),
{
    if s.len() == 0 {
        Seq::empty()
    } else if s.last().split_id == split_id {
        history_of(s.drop_last(), split_id).push(s.last().id)
    } else {
        history_of(s.drop_last(), split_id)
    }
}

/// A transaction with a new settlement hash and status; recipient and amount
/// stay.
pub open spec fn with_status(
    t: TransactionView,
    tx_hash: Option<Seq<char>>,
    status: TransactionStatus,
) -> TransactionView {
    TransactionView { tx_hash, status, ..t }
}

/// A distribution in which the transaction at `index` has a new settlement
/// hash and status; everything else stays.
pub open spec fn with_transaction_status(
    d: DistributionView,
    index: int,
    tx_hash: Option<Seq<char>>,
    status: TransactionStatus,
) -> DistributionView {
    DistributionView {
        transactions: d.transactions.update(
            index,
            with_status(d.transactions[index], tx_hash, status),
        ),
        ..d
    }
}

/// Different positions give different distribution ids.
pub proof fn lemma_distribution_ids_differ(i: nat, j: nat)
    requires
        distribution_id(i) == distribution_id(j),
    ensures
        i == j,
{
    let p = "dist-"@;
    assert(decimal(i) =~= distribution_id(i).skip(p.len() as int));
    assert(decimal(j) =~= distribution_id(j).skip(p.len() as int));
    lemma_decimal_injective(i, j);
}

/// In a well-formed ledger an id names one distribution at most.
pub proof fn lemma_distribution_found(s: Seq<DistributionView>, i: int)
    requires
        distributions_wf(s),
        0 <= i < s.len(),
    ensures
        has_distribution(s, s[i].id),
        index_of_distribution(s, s[i].id) == i,
{
    let j = index_of_distribution(s, s[i].id);
    lemma_distribution_ids_differ(i as nat, j as nat);
}

/// The transactions of a distribution pay the contributors' shares.
pub proof fn lemma_total_paid_is_total_shares(
    list: Seq<ContributorView>,
    amount: nat,
    bindings: Seq<BindingView>,
)
    ensures
        total_paid(transactions_for(list, amount, bindings)) == total_shares(list, amount),
    decreases list.len(),
{
    if list.len() > 0 {
        lemma_total_paid_is_total_shares(list.drop_last(), amount, bindings);
        assert(transactions_for(list, amount, bindings).drop_last() =~= transactions_for(
            list.drop_last(),
            amount,
            bindings,
        ));
    }
}

/// The shares of a distribution never add up to more than its amount, for
/// every contributor list whose percentages add up to 100%.
pub proof fn lemma_distribution_within_amount(
    list: Seq<ContributorView>,
    amount: nat,
    bindings: Seq<BindingView>,
)
    requires
        total_percentage(list) == PERCENTAGE_SCALE,
    ensures
        total_paid(transactions_for(list, amount, bindings)) <= amount,
{
    lemma_total_paid_is_total_shares(list, amount, bindings);
    lemma_shares_within_amount(list, amount);
}

/// A new hash and status on one transaction leave the sum of the amounts as
/// it was.
pub proof fn lemma_status_keeps_total(
    list: Seq<TransactionView>,
    index: int,
    tx_hash: Option<Seq<char>>,
    status: TransactionStatus,
)
    requires
        0 <= index < list.len(),
    ensures
        total_paid(list.update(index, with_status(list[index], tx_hash, status))) == total_paid(
            list,
        ),
    decreases list.len(),
{
    let changed = list.update(index, with_status(list[index], tx_hash, status));
    if index == list.len() - 1 {
        assert(changed.drop_last() =~= list.drop_last());
    } else {
        lemma_status_keeps_total(list.drop_last(), index, tx_hash, status);
        assert(changed.drop_last() =~= list.drop_last().update(
            index,
            with_status(list[index], tx_hash, status),
        ));
    }
}

/// No contributor of a list has more than the list's total percentage.
pub proof fn lemma_part_bounded(list: Seq<ContributorView>, i: int)
    requires
        0 <= i < list.len(),
    ensures
        list[i].percentage <= total_percentage(list),
    decreases list.len(),
{
    if i < list.len() - 1 {
        lemma_part_bounded(list.drop_last(), i);
    }
}

/// Builds the transactions of a distribution of `amount` over `contributors`
/// and queues a payout for every contributor who is not verified.
pub fn build_transactions(
    contributors: &Vec<Contributor>,
    amount: u128,
    token: &String,
    now: u64,
    identities: &IdentityRegistry,
    pending: &mut PendingQueue,
) -> (r: Vec<Transaction>)
    requires
        identities.wf(),
        old(pending).wf(),
        stored_contributors_wf(contributors.deep_view()),
    ensures
        final(pending).wf(),
        r.deep_view() == transactions_for(
            contributors.deep_view(),
            amount as nat,
            identities.bindings(),
        ),
        final(pending).entries() == payouts_queued(
            old(pending).entries(),
            contributors.deep_view(),
            amount as nat,
            token@,
            now,
            identities.bindings(),
        ),
{
    let ghost list = contributors.deep_view();
    let ghost bindings = identities.bindings();
    let ghost queue = pending.entries();
    let mut out: Vec<Transaction> = Vec::new();
    let mut i: usize = 0;
    proof {
        identities.lemma_wf();
        assert(list.take(0) =~= Seq::<ContributorView>::empty());
        assert(out.deep_view() =~= transactions_for(list.take(0), amount as nat, bindings));
    }
    while i < contributors.len()
        invariant
            i <= contributors.len(),
            list == contributors.deep_view(),
            stored_contributors_wf(list),
            identities.wf(),
            bindings == identities.bindings(),
            pending.wf(),
            out.deep_view() == transactions_for(list.take(i as int), amount as nat, bindings),
            pending.entries() == payouts_queued(
                queue,
                list.take(i as int),
                amount as nat,
                token@,
                now,
                bindings,
            ),
        decreases contributors.len() - i,
    {
        let c = &contributors[i];
        proof {
            assert(c@ == list[i as int]);
            lemma_part_bounded(list, i as int);
            assert(list.take(i + 1).drop_last() =~= list.take(i as int));
            assert(list.take(i + 1).last() == list[i as int]);
            identities.lemma_wf();
        }
        let share = compute_share(amount, c.percentage);
        let recipient = match identities.address_of(&c.github_username) {
            Some(address) => {
                proof {
                    lemma_recipient_bound(bindings, c.github_username@, address@);
                }
                address
            },
            None => {
                let mut sentinel: String = "pending:".to_owned();
                sentinel.append(c.github_username.as_str());
                pending.enqueue(c.github_username.clone(), share, token.clone(), now);
                sentinel
            },
        };
        let ghost before = out.deep_view();
        let t = Transaction {
            recipient,
            amount: share,
            tx_hash: None,
            status: TransactionStatus::Pending,
        };
        assert(t@ == transaction_for(list[i as int], amount as nat, bindings));
        out.push(t);
        i += 1;
        proof {
            assert(out.deep_view() =~= before.push(
                transaction_for(list[i - 1], amount as nat, bindings),
            ));
            assert(out.deep_view() =~= transactions_for(
                list.take(i as int),
                amount as nat,
                bindings,
            ));
        }
    }
    proof {
        assert(list.take(i as int) =~= list);
    }
    out
}

/// A part of a transaction list pays no more than the whole list.
pub proof fn lemma_total_paid_monotone(list: Seq<TransactionView>, k: int)
    requires
        0 <= k <= list.len(),
    ensures
        total_paid(list.take(k)) <= total_paid(list),
    decreases list.len(),
{
    if k == list.len() {
        assert(list.take(k) =~= list);
    } else {
        lemma_total_paid_monotone(list.drop_last(), k);
        assert(list.drop_last().take(k) =~= list.take(k));
    }
}

/// Whether a distribution has a positive amount, at least one transaction,
/// and transactions that together pay no more than the amount.
pub fn check_distribution(d: &Distribution) -> (r: bool)
    ensures
        r == distribution_wf(d@),
{
    let ghost list = d.transactions.deep_view();
    if d.amount == 0 || d.transactions.len() == 0 {
        return false;
    }
    let mut sum: u128 = 0;
    let mut i: usize = 0;
    proof {
        assert(list.take(0) =~= Seq::<TransactionView>::empty());
    }
    while i < d.transactions.len()
        invariant
            i <= d.transactions.len(),
            list == d.transactions.deep_view(),
            sum == total_paid(list.take(i as int)),
            sum <= d.amount,
        decreases d.transactions.len() - i,
    {
        let t = &d.transactions[i];
        proof {
            assert(t@ == list[i as int]);
            assert(list.take(i + 1).drop_last() =~= list.take(i as int));
            assert(list.take(i + 1).last() == list[i as int]);
        }
        if t.amount > d.amount - sum {
            proof {
                lemma_total_paid_monotone(list, i + 1);
            }
            return false;
        }
        sum = sum + t.amount;
        i += 1;
    }
    proof {
        assert(list.take(i as int) =~= list);
    }
    true
}

/// Whether a list of distributions is as the distributions of a ledger must
/// be.
pub fn check_distributions(distributions: &Vec<Distribution>) -> (r: bool)
    ensures
        r == distributions_wf(distributions.deep_view()),
{
    let ghost s = distributions.deep_view();
    let mut i: usize = 0;
    while i < distributions.len()
        invariant
            i <= distributions.len(),
            s == distributions.deep_view(),
            forall|k: int| 0 <= k < i ==> (#[trigger] s[k]).id == distribution_id(k as nat),
            forall|k: int| 0 <= k < i ==> distribution_wf(#[trigger] s[k]),
        decreases distributions.len() - i,
    {
        assert(distributions[i as int]@ == s[i as int]);
        let mut id: String = "dist-".to_owned();
        push_decimal(&mut id, i as u64);
        if !(distributions[i].id == id) || !check_distribution(&distributions[i]) {
            return false;
        }
        i += 1;
    }
    true
}

} // verus!
