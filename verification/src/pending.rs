//! The queue of payouts that wait for their contributor to be verified.
//! Entries are only ever added or marked as claimed, never taken out.

use crate::text::{decimal, lemma_decimal_injective, lemma_decimal_shape, push_decimal};
use crate::types::{PendingDistribution, PendingDistributionView};
use vstd::prelude::*;

verus! {

/// The id of the payout that is queued at position `index`, at time
/// `timestamp`, for `username`. The position makes it differ from every other
/// id of the queue.
pub open spec fn pending_id(username: Seq<char>, timestamp: u64, index: nat) -> Seq<char> {
    "pending-"@ + username + seq!['-'] + decimal(timestamp as nat) + seq!['-'] + decimal(index)
}

/// Every entry carries the id that belongs to its position.
pub open spec fn queue_wf(s: Seq<PendingDistributionView>) -> bool {
    forall|i: int|
        0 <= i < s.len() ==> (#[trigger] s[i]).id == pending_id(
            s[i].github_username,
            s[i].timestamp,
            i as nat,
        )
}

/// Whether some entry of `s` has the id `id`.
pub open spec fn has_pending(s: Seq<PendingDistributionView>, id: Seq<char>) -> bool {
    exists|i: int| 0 <= i < s.len() && (#[trigger] s[i]).id == id
}

/// The position of the entry with the id `id`.
pub open spec fn index_of_pending(s: Seq<PendingDistributionView>, id: Seq<char>) -> int {
    choose|i: int| 0 <= i < s.len() && (#[trigger] s[i]).id == id
}

/// The entries of `s` for `username` that are not claimed yet, in the order
/// of the queue.
pub open spec fn unclaimed_for(
    s: Seq<PendingDistributionView>,
    username: Seq<char>,
) -> Seq<PendingDistributionView>
    decreases s.len(),
{
    if s.len() == 0 {
        s
    } else if s.last().github_username == username && !s.last().claimed {
        unclaimed_for(s.drop_last(), username).push(s.last())
    } else {
        unclaimed_for(s.drop_last(), username)
    }
}

/// An entry after the payouts of `username` were settled: claimed if it is
/// one of them, and as it was if not.
pub open spec fn settled_entry(
    e: PendingDistributionView,
    username: Seq<char>,
) -> PendingDistributionView {
    if e.github_username == username {
        PendingDistributionView { claimed: true, ..e }
    } else {
        e
    }
}

/// The queue after the payouts of `username` were settled.
pub open spec fn settled(
    s: Seq<PendingDistributionView>,
    username: Seq<char>,
) -> Seq<PendingDistributionView> {
    s.map_values(|e: PendingDistributionView| settled_entry(e, username))
}

/// Two texts that end in a dash and a numeral are equal only if the numerals
/// are.
proof fn lemma_numeral_suffix(x1: Seq<char>, n1: nat, x2: Seq<char>, n2: nat)
    requires
        x1 + seq!['-'] + decimal(n1) == x2 + seq!['-'] + decimal(n2),
    ensures
        n1 == n2,
{
    let d1 = decimal(n1);
    let d2 = decimal(n2);
    let t1 = x1 + seq!['-'] + d1;
    let t2 = x2 + seq!['-'] + d2;
    lemma_decimal_shape(n1);
    lemma_decimal_shape(n2);
    assert(t1.len() == x1.len() + 1 + d1.len());
    assert(t2.len() == x2.len() + 1 + d2.len());
    if d1.len() < d2.len() {
        let p = x1.len() as int;
        assert(t1[p] == '-');
        assert(t2[p] == d2[p - x2.len() - 1]);
    } else if d2.len() < d1.len() {
        let p = x2.len() as int;
        assert(t2[p] == '-');
        assert(t1[p] == d1[p - x1.len() - 1]);
    } else {
        assert forall|k: int| 0 <= k < d1.len() implies d1[k] == d2[k] by {
            assert(t1[x1.len() + 1 + k] == d1[k]);
            assert(t2[x2.len() + 1 + k] == d2[k]);
        }
        assert(d1 =~= d2);
        lemma_decimal_injective(n1, n2);
    }
}

/// No two entries of a queue have the same id.
pub proof fn lemma_pending_ids_differ(s: Seq<PendingDistributionView>, i: int, j: int)
    requires
        queue_wf(s),
        0 <= i < s.len(),
        0 <= j < s.len(),
        i != j,
    ensures
        s[i].id != s[j].id,
{
    let x1 = "pending-"@ + s[i].github_username + seq!['-'] + decimal(s[i].timestamp as nat);
    let x2 = "pending-"@ + s[j].github_username + seq!['-'] + decimal(s[j].timestamp as nat);
    if s[i].id == s[j].id {
        lemma_numeral_suffix(x1, i as nat, x2, j as nat);
    }
}

/// Settling twice is settling once, and nothing is unclaimed for a username
/// whose payouts were settled.
pub proof fn lemma_settled_idempotent(s: Seq<PendingDistributionView>, username: Seq<char>)
    ensures
        settled(settled(s, username), username) == settled(s, username),
        unclaimed_for(settled(s, username), username) == Seq::<PendingDistributionView>::empty(),
        queue_wf(s) ==> queue_wf(settled(s, username)),
    decreases s.len(),
{
    assert(settled(settled(s, username), username) =~= settled(s, username));
    if s.len() > 0 {
        lemma_settled_idempotent(s.drop_last(), username);
        assert(settled(s, username).drop_last() =~= settled(s.drop_last(), username));
    }
}

/// Settling the payouts of one username leaves those of every other
/// username as they were.
pub proof fn lemma_settled_others(
    s: Seq<PendingDistributionView>,
    username: Seq<char>,
    other: Seq<char>,
)
    requires
        other != username,
    ensures
        unclaimed_for(settled(s, username), other) == unclaimed_for(s, other),
    decreases s.len(),
{
    if s.len() > 0 {
        lemma_settled_others(s.drop_last(), username, other);
        assert(settled(s, username).drop_last() =~= settled(s.drop_last(), username));
    }
}

/// The payouts that wait for a verification.
pub struct PendingQueue {
    entries: Vec<PendingDistribution>,
}

impl PendingQueue {
    /// The entries, in the order in which they were queued.
    pub closed spec fn entries(&self) -> Seq<PendingDistributionView> {
        self.entries.deep_view()
    }

    /// Every entry carries the id that belongs to its position.
    pub closed spec fn wf(&self) -> bool {
        queue_wf(self.entries.deep_view())
    }

    /// What `wf` says of the entries.
    pub proof fn lemma_wf(&self)
        requires
            self.wf(),
        ensures
            queue_wf(self.entries()),
    {
    }

    /// The empty queue.
    pub fn new() -> (r: Self)
        ensures
            r.wf(),
            r.entries() == Seq::<PendingDistributionView>::empty(),
    {
        let r = PendingQueue { entries: Vec::new() };
        assert(r.entries.deep_view() =~= Seq::<PendingDistributionView>::empty());
        r
    }

    /// Takes the queue apart into its entries.
    pub fn into_entries(self) -> (r: Vec<PendingDistribution>)
        ensures
            r.deep_view() == self.entries(),
    {
        self.entries
    }

    /// Puts a queue together from its entries. Returns nothing if an entry
    /// does not carry the id that belongs to its position.
    pub fn from_entries(entries: Vec<PendingDistribution>) -> (r: Option<Self>)
        ensures
            match r {
                Some(queue) => queue.wf() && queue.entries() == entries.deep_view(),
                None => !queue_wf(entries.deep_view()),
            },
    {
        let ghost s = entries.deep_view();
        let mut i: usize = 0;
        while i < entries.len()
            invariant
                i <= entries.len(),
                s == entries.deep_view(),
                forall|k: int|
                    0 <= k < i ==> (#[trigger] s[k]).id == pending_id(
                        s[k].github_username,
                        s[k].timestamp,
                        k as nat,
                    ),
            decreases entries.len() - i,
        {
            let e = &entries[i];
            assert(e@ == s[i as int]);
            let mut id: String = "pending-".to_owned();
            id.append(e.github_username.as_str());
            id.append("-");
            push_decimal(&mut id, e.timestamp);
            id.append("-");
            push_decimal(&mut id, i as u64);
            proof {
                reveal_strlit("-");
                assert("-"@ =~= seq!['-']);
                assert(id@ =~= pending_id(e.github_username@, e.timestamp, i as nat));
            }
            if !(e.id == id) {
                return None;
            }
            i += 1;
        }
        Some(PendingQueue { entries })
    }

    /// Queues a payout of `amount` in `token` for `username`, and returns
    /// its id. The username is taken as it is.
    pub fn enqueue(&mut self, username: String, amount: u128, token: String, now: u64) -> (id:
        String)
        requires
            old(self).wf(),
        ensures
            final(self).wf(),
            id@ == pending_id(username@, now, old(self).entries().len()),
            !has_pending(old(self).entries(), id@),
            final(self).entries() == old(self).entries().push(
                PendingDistributionView {
                    id: id@,
                    github_username: username@,
                    amount: amount as nat,
                    token: token@,
                    timestamp: now,
                    claimed: false,
                },
            ),
    {
        let ghost before = self.entries.deep_view();
        let index: usize = self.entries.len();
        let mut id: String = "pending-".to_owned();
        id.append(username.as_str());
        id.append("-");
        push_decimal(&mut id, now);
        id.append("-");
        push_decimal(&mut id, index as u64);
        proof {
            reveal_strlit("-");
            assert("-"@ =~= seq!['-']);
            assert(id@ =~= pending_id(username@, now, index as nat));
        }
        let entry = PendingDistribution {
            id: id.clone(),
            github_username: username,
            amount,
            token,
            timestamp: now,
            claimed: false,
        };
        let ghost added = entry@;
        self.entries.push(entry);
        proof {
            let after = self.entries.deep_view();
            assert(after =~= before.push(added));
            assert forall|j: int| 0 <= j < before.len() implies (#[trigger] before[j]).id
                != id@ by {
                assert(after[j] == before[j]);
                lemma_pending_ids_differ(after, j, before.len() as int);
            }
        }
        id
    }

    /// The entry with the id `id`, claimed or not.
    pub fn find(&self, id: &String) -> (r: Option<PendingDistribution>)
        requires
            self.wf(),
        ensures
            match r {
                Some(e) => has_pending(self.entries(), id@) && e@ == self.entries()[index_of_pending(
                    self.entries(),
                    id@,
                )],
                None => !has_pending(self.entries(), id@),
            },
    {
        let mut i: usize = 0;
        while i < self.entries.len()
            invariant
                self.wf(),
                i <= self.entries.len(),
                forall|k: int| 0 <= k < i ==> (#[trigger] self.entries.deep_view()[k]).id != id@,
            decreases self.entries.len() - i,
        {
            if self.entries[i].id == *id {
                proof {
                    let s = self.entries.deep_view();
                    assert(s[i as int].id == id@);
                    let j = index_of_pending(s, id@);
                    if j != i {
                        lemma_pending_ids_differ(s, i as int, j);
                    }
                }
                return Some(self.entries[i].clone());
            }
            i += 1;
        }
        None
    }

    /// The payouts of `username` that are not claimed yet, in the order of
    /// the queue. The username is taken as it is.
    pub fn unclaimed(&self, username: &String) -> (r: Vec<PendingDistribution>)
        ensures
            r.deep_view() == unclaimed_for(self.entries(), username@),
    {
        let ghost s = self.entries.deep_view();
        let mut out: Vec<PendingDistribution> = Vec::new();
        let mut i: usize = 0;
        assert(s.take(0) =~= Seq::<PendingDistributionView>::empty());
        assert(out.deep_view() =~= unclaimed_for(s.take(0), username@));
        while i < self.entries.len()
            invariant
                i <= self.entries.len(),
                s == self.entries.deep_view(),
                out.deep_view() == unclaimed_for(s.take(i as int), username@),
            decreases self.entries.len() - i,
        {
            let e = &self.entries[i];
            let ghost before = out.deep_view();
            proof {
                assert(s.take(i + 1).drop_last() =~= s.take(i as int));
                assert(s.take(i + 1).last() == e@);
            }
            if e.github_username == *username && !e.claimed {
                out.push(e.clone());
                assert(out.deep_view() =~= before.push(e@));
            }
            i += 1;
        }
        assert(s.take(i as int) =~= s);
        out
    }

    /// Marks every payout of `username` as claimed. Nothing else changes: no
    /// entry is taken out, and no funds move.
    pub fn settle(&mut self, username: &String)
        requires
            old(self).wf(),
        ensures
            final(self).wf(),
            final(self).entries() == settled(old(self).entries(), username@),
    {
        let ghost s = self.entries.deep_view();
        let mut i: usize = 0;
        while i < self.entries.len()
            invariant
                i <= self.entries.len(),
                self.entries.len() == s.len(),
                forall|k: int|
                    0 <= k < i ==> #[trigger] self.entries.deep_view()[k] == settled_entry(
                        s[k],
                        username@,
                    ),
                forall|k: int| i <= k < s.len() ==> #[trigger] self.entries.deep_view()[k] == s[k],
            decreases self.entries.len() - i,
        {
            assert(self.entries.deep_view()[i as int] == s[i as int]);
            assert(self.entries.deep_view()[i as int] == self.entries[i as int]@);
            if self.entries[i].github_username == *username && !self.entries[i].claimed {
                let mut e = self.entries[i].clone();
                e.claimed = true;
                let ghost before = self.entries.deep_view();
                let ghost marked = e@;
                assert(marked == settled_entry(s[i as int], username@));
                self.entries.set(i, e);
                assert forall|k: int| 0 <= k < s.len() && k != i implies #[trigger]
                    self.entries.deep_view()[k] == before[k] by {}
                assert(self.entries.deep_view()[i as int] == marked);
            } else {
                assert(self.entries.deep_view()[i as int] == s[i as int]);
                assert(s[i as int] == settled_entry(s[i as int], username@));
            }
            i += 1;
        }
        proof {
            assert(self.entries.deep_view() =~= settled(s, username@));
            lemma_settled_idempotent(s, username@);
        }
    }
}

} // verus!
