//! The split registry: one split per repository, each with its weighted
//! contributors.

use crate::shares::{total_percentage, MAX_CONTRIBUTORS, PERCENTAGE_SCALE};
use crate::text::{decimal, lemma_decimal_injective, normalize_username, normalized, push_decimal};
use crate::types::{clone_text_option, Contributor, ContributorView, Split, SplitView};
use vstd::prelude::*;

verus! {

/// The id of the split that was created at position `index`.
pub open spec fn split_id(index: nat) -> Seq<char> {
    "split-"@ + decimal(index)
}

/// What a contributor list must meet to be accepted: at most 200 entries,
/// each with a username that is not empty in canonical form and a positive
/// percentage, no username twice in canonical form, and percentages that add
/// up to exactly 100%.
pub open spec fn valid_contributors(list: Seq<ContributorView>) -> bool {
    &&& list.len() <= MAX_CONTRIBUTORS
    &&& forall|i: int|
        0 <= i < list.len() ==> normalized((#[trigger] list[i]).github_username).len() > 0
    &&& forall|i: int| 0 <= i < list.len() ==> (#[trigger] list[i]).percentage > 0
    &&& forall|i: int, j: int|
        0 <= i < j < list.len() ==> normalized((#[trigger] list[i]).github_username) != normalized(
            (#[trigger] list[j]).github_username,
        )
    &&& total_percentage(list) == PERCENTAGE_SCALE
}

/// A contributor with the username in canonical form.
pub open spec fn canonical_contributor(c: ContributorView) -> ContributorView {
    ContributorView { github_username: normalized(c.github_username), ..c }
}

/// A contributor list as it is stored: every username in canonical form.
pub open spec fn canonical_contributors(list: Seq<ContributorView>) -> Seq<ContributorView> {
    list.map_values(|c: ContributorView| canonical_contributor(c))
}

/// What holds of the contributor list of every stored split: it is empty, as
/// before the first update, or it has at most 200 entries with different,
/// non-empty usernames and positive percentages that add up to exactly 100%.
pub open spec fn stored_contributors_wf(list: Seq<ContributorView>) -> bool {
    list.len() == 0 || {
        &&& list.len() <= MAX_CONTRIBUTORS
        &&& forall|i: int| 0 <= i < list.len() ==> (#[trigger] list[i]).github_username.len() > 0
        &&& forall|i: int| 0 <= i < list.len() ==> (#[trigger] list[i]).percentage > 0
        &&& forall|i: int, j: int|
            0 <= i < j < list.len() ==> (#[trigger] list[i]).github_username != (
            #[trigger] list[j]).github_username
        &&& total_percentage(list) == PERCENTAGE_SCALE
    }
}

/// Whether some split of `s` has the id `id`.
pub open spec fn has_split(s: Seq<SplitView>, id: Seq<char>) -> bool {
    exists|i: int| 0 <= i < s.len() && (#[trigger] s[i]).id == id
}

/// The position of the split with the id `id`.
pub open spec fn index_of_split(s: Seq<SplitView>, id: Seq<char>) -> int {
    choose|i: int| 0 <= i < s.len() && (#[trigger] s[i]).id == id
}

/// Whether some split of `s` is for the repository `repo_url`.
pub open spec fn has_repo(s: Seq<SplitView>, repo_url: Seq<char>) -> bool {
    exists|i: int| 0 <= i < s.len() && (#[trigger] s[i]).repo_url == repo_url
}

/// The position of the split for the repository `repo_url`.
pub open spec fn index_of_repo(s: Seq<SplitView>, repo_url: Seq<char>) -> int {
    choose|i: int| 0 <= i < s.len() && (#[trigger] s[i]).repo_url == repo_url
}

/// Every split carries the id of its position, no repository has two
/// splits, and every contributor list is as a stored list must be.
pub open spec fn splits_wf(s: Seq<SplitView>) -> bool {
    &&& forall|i: int| 0 <= i < s.len() ==> (#[trigger] s[i]).id == split_id(i as nat)
    &&& forall|i: int, j: int|
        0 <= i < j < s.len() ==> (#[trigger] s[i]).repo_url != (#[trigger] s[j]).repo_url
    &&& forall|i: int| 0 <= i < s.len() ==> stored_contributors_wf((#[trigger] s[i]).contributors)
}

/// Different positions give different split ids.
pub proof fn lemma_split_ids_differ(i: nat, j: nat)
    requires
        split_id(i) == split_id(j),
    ensures
        i == j,
{
    let p = "split-"@;
    assert(decimal(i) =~= split_id(i).skip(p.len() as int));
    assert(decimal(j) =~= split_id(j).skip(p.len() as int));
    lemma_decimal_injective(i, j);
}

/// In a well-formed registry an id or a repository names one split at most,
/// so the position of a split is found again from either.
pub proof fn lemma_split_found(s: Seq<SplitView>, i: int)
    requires
        splits_wf(s),
        0 <= i < s.len(),
    ensures
        has_split(s, s[i].id),
        index_of_split(s, s[i].id) == i,
        has_repo(s, s[i].repo_url),
        index_of_repo(s, s[i].repo_url) == i,
{
    let j = index_of_split(s, s[i].id);
    lemma_split_ids_differ(i as nat, j as nat);
    let k = index_of_repo(s, s[i].repo_url);
    assert(k == i);
}

/// Bringing the usernames into canonical form leaves the percentages, and so
/// their sum, as they are.
pub proof fn lemma_canonical_total(list: Seq<ContributorView>)
    ensures
        total_percentage(canonical_contributors(list)) == total_percentage(list),
    decreases list.len(),
{
    if list.len() > 0 {
        lemma_canonical_total(list.drop_last());
        assert(canonical_contributors(list).drop_last() =~= canonical_contributors(
            list.drop_last(),
        ));
    }
}

/// The percentages of a part of a list add up to no more than those of the
/// whole list.
pub proof fn lemma_total_monotone(list: Seq<ContributorView>, k: int)
    requires
        0 <= k <= list.len(),
    ensures
        total_percentage(list.take(k)) <= total_percentage(list),
    decreases list.len(),
{
    if k == list.len() {
        assert(list.take(k) =~= list);
    } else {
        lemma_total_monotone(list.drop_last(), k);
        assert(list.drop_last().take(k) =~= list.take(k));
    }
}

/// A valid list in canonical form is as a stored list must be.
pub proof fn lemma_valid_is_storable(list: Seq<ContributorView>)
    requires
        valid_contributors(list),
    ensures
        stored_contributors_wf(canonical_contributors(list)),
        canonical_contributors(list).len() > 0,
{
    lemma_canonical_total(list);
    if list.len() == 0 {
        assert(total_percentage(list) == 0);
    }
}

/// Checks a contributor list and brings it into the form in which it is
/// stored. Returns nothing if the list is not valid.
pub fn validate_contributors(list: &Vec<Contributor>) -> (r: Option<Vec<Contributor>>)
    ensures
        match r {
            Some(stored) => valid_contributors(list.deep_view()) && stored.deep_view()
                == canonical_contributors(list.deep_view()),
            None => !valid_contributors(list.deep_view()),
        },
{
    let ghost given = list.deep_view();
    if list.len() > MAX_CONTRIBUTORS {
        return None;
    }
    let mut out: Vec<Contributor> = Vec::new();
    let mut sum: u128 = 0;
    let mut i: usize = 0;
    proof {
        assert(given.take(0) =~= Seq::<ContributorView>::empty());
        assert(out.deep_view() =~= canonical_contributors(given.take(0)));
    }
    while i < list.len()
        invariant
            i <= list.len(),
            out.len() == i,
            given == list.deep_view(),
            out.deep_view() == canonical_contributors(given.take(i as int)),
            sum == total_percentage(given.take(i as int)),
            sum <= PERCENTAGE_SCALE,
            forall|k: int|
                0 <= k < i ==> normalized((#[trigger] given[k]).github_username).len() > 0,
            forall|k: int| 0 <= k < i ==> (#[trigger] given[k]).percentage > 0,
            forall|k: int, m: int|
                0 <= k < m < i ==> normalized((#[trigger] given[k]).github_username) != normalized(
                    (#[trigger] given[m]).github_username,
                ),
        decreases list.len() - i,
    {
        let c = &list[i];
        assert(c@ == given[i as int]);
        let username = normalize_username(c.github_username.as_str());
        if username.as_str().is_empty() {
            return None;
        }
        if c.percentage == 0 {
            return None;
        }
        let mut k: usize = 0;
        while k < out.len()
            invariant
                k <= out.len() == i,
                i < list.len(),
                given == list.deep_view(),
                username@ == normalized(given[i as int].github_username),
                out.deep_view() == canonical_contributors(given.take(i as int)),
                forall|m: int|
                    0 <= m < k ==> normalized((#[trigger] given[m]).github_username) != username@,
            decreases out.len() - k,
        {
            assert(out.deep_view()[k as int] == canonical_contributor(given.take(i as int)[k as int]));
            if out[k].github_username == username {
                return None;
            }
            k += 1;
        }
        proof {
            assert(given.take(i + 1).drop_last() =~= given.take(i as int));
            assert(given.take(i + 1).last() == given[i as int]);
        }
        if c.percentage > PERCENTAGE_SCALE - sum {
            proof {
                lemma_total_monotone(given, i + 1);
            }
            return None;
        }
        sum = sum + c.percentage;
        let ghost before = out.deep_view();
        out.push(
            Contributor {
                github_username: username,
                account_id: clone_text_option(&c.account_id),
                percentage: c.percentage,
            },
        );
        i += 1;
        proof {
            assert(out.deep_view() =~= before.push(canonical_contributor(given[i - 1])));
            assert(out.deep_view() =~= canonical_contributors(given.take(i as int)));
        }
    }
    proof {
        assert(given.take(i as int) =~= given);
    }
    if sum != PERCENTAGE_SCALE {
        return None;
    }
    Some(out)
}

/// Whether a contributor list is as a stored list must be.
pub fn check_stored_contributors(list: &Vec<Contributor>) -> (r: bool)
    ensures
        r == stored_contributors_wf(list.deep_view()),
{
    let ghost given = list.deep_view();
    if list.len() == 0 {
        return true;
    }
    if list.len() > MAX_CONTRIBUTORS {
        return false;
    }
    let mut sum: u128 = 0;
    let mut i: usize = 0;
    proof {
        assert(given.take(0) =~= Seq::<ContributorView>::empty());
    }
    while i < list.len()
        invariant
            i <= list.len(),
            0 < list.len() <= MAX_CONTRIBUTORS,
            given == list.deep_view(),
            sum == total_percentage(given.take(i as int)),
            sum <= PERCENTAGE_SCALE,
            forall|k: int| 0 <= k < i ==> (#[trigger] given[k]).github_username.len() > 0,
            forall|k: int| 0 <= k < i ==> (#[trigger] given[k]).percentage > 0,
            forall|k: int, m: int|
                0 <= k < m < i ==> (#[trigger] given[k]).github_username != (
                #[trigger] given[m]).github_username,
        decreases list.len() - i,
    {
        let c = &list[i];
        assert(c@ == given[i as int]);
        if c.github_username.as_str().is_empty() || c.percentage == 0 {
            return false;
        }
        let mut k: usize = 0;
        while k < i
            invariant
                k <= i < list.len(),
                given == list.deep_view(),
                forall|m: int|
                    0 <= m < k ==> (#[trigger] given[m]).github_username
                        != given[i as int].github_username,
            decreases i - k,
        {
            assert(list[k as int]@ == given[k as int]);
            if list[k].github_username == list[i].github_username {
                return false;
            }
            k += 1;
        }
        proof {
            assert(given.take(i + 1).drop_last() =~= given.take(i as int));
            assert(given.take(i + 1).last() == given[i as int]);
        }
        if c.percentage > PERCENTAGE_SCALE - sum {
            proof {
                lemma_total_monotone(given, i + 1);
            }
            return false;
        }
        sum = sum + c.percentage;
        i += 1;
    }
    proof {
        assert(given.take(i as int) =~= given);
    }
    sum == PERCENTAGE_SCALE
}

/// Whether a list of splits is as the splits of a ledger must be.
pub fn check_splits(splits: &Vec<Split>) -> (r: bool)
    ensures
        r == splits_wf(splits.deep_view()),
{
    let ghost s = splits.deep_view();
    let mut i: usize = 0;
    while i < splits.len()
        invariant
            i <= splits.len(),
            s == splits.deep_view(),
            forall|k: int| 0 <= k < i ==> (#[trigger] s[k]).id == split_id(k as nat),
            forall|k: int, m: int|
                0 <= k < m < i ==> (#[trigger] s[k]).repo_url != (#[trigger] s[m]).repo_url,
            forall|k: int| 0 <= k < i ==> stored_contributors_wf((#[trigger] s[k]).contributors),
        decreases splits.len() - i,
    {
        assert(splits[i as int]@ == s[i as int]);
        let mut id: String = "split-".to_owned();
        push_decimal(&mut id, i as u64);
        if !(splits[i].id == id) {
            return false;
        }
        let mut k: usize = 0;
        while k < i
            invariant
                k <= i < splits.len(),
                s == splits.deep_view(),
                forall|m: int| 0 <= m < k ==> (#[trigger] s[m]).repo_url != s[i as int].repo_url,
            decreases i - k,
        {
            assert(splits[k as int]@ == s[k as int]);
            assert(splits[i as int]@ == s[i as int]);
            if splits[k].repo_url == splits[i].repo_url {
                assert(s[k as int].repo_url == s[i as int].repo_url);
                return false;
            }
            k += 1;
        }
        if !check_stored_contributors(&splits[i].contributors) {
            return false;
        }
        i += 1;
    }
    true
}

} // verus!
