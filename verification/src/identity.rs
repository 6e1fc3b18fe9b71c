//! The bindings of GitHub usernames to wallet addresses, as a mathematical
//! object: a bijection, listed in the order of the usernames.

use crate::text::{lemma_lex_irreflexive, lemma_lex_transitive, lex_less};
use crate::types::VerificationView;
use vstd::prelude::*;

verus! {

/// A page never holds more entries than this, whatever limit is asked for.
pub const MAX_PAGE_SIZE: usize = 200;

/// One pair of the bijection.
#[derive(Debug, PartialEq, Eq)]
pub struct Binding {
    pub github_username: String,
    pub wallet_address: String,
}

pub struct BindingView {
    pub github_username: Seq<char>,
    pub wallet_address: Seq<char>,
}

impl View for Binding {
    type V = BindingView;

    open spec fn view(&self) -> BindingView {
        BindingView { github_username: self.github_username@, wallet_address: self.wallet_address@ }
    }
}

impl DeepView for Binding {
    type V = BindingView;

    open spec fn deep_view(&self) -> BindingView {
        self@
    }
}

impl Clone for Binding {
    fn clone(&self) -> (r: Self)
        ensures
            r == *self,
    {
        Binding {
            github_username: self.github_username.clone(),
            wallet_address: self.wallet_address.clone(),
        }
    }
}

/// The usernames of `s` strictly increase.
pub open spec fn sorted_by_username(s: Seq<BindingView>) -> bool {
    forall|i: int, j: int|
        0 <= i < j < s.len() ==> lex_less(
            (#[trigger] s[i]).github_username,
            (#[trigger] s[j]).github_username,
        )
}

/// No address occurs twice in `s`.
pub open spec fn distinct_addresses(s: Seq<BindingView>) -> bool {
    forall|i: int, j: int|
        0 <= i < j < s.len() ==> (#[trigger] s[i]).wallet_address != (
        #[trigger] s[j]).wallet_address
}

/// A bijection between non-empty usernames and addresses, listed in the
/// order of the usernames.
pub open spec fn bindings_wf(s: Seq<BindingView>) -> bool {
    &&& sorted_by_username(s)
    &&& distinct_addresses(s)
    &&& forall|i: int| 0 <= i < s.len() ==> (#[trigger] s[i]).github_username.len() > 0
}

/// Whether some binding of `s` has the username `u`.
pub open spec fn has_username(s: Seq<BindingView>, u: Seq<char>) -> bool {
    exists|i: int| 0 <= i < s.len() && (#[trigger] s[i]).github_username == u
}

/// Whether some binding of `s` has the address `a`.
pub open spec fn has_address(s: Seq<BindingView>, a: Seq<char>) -> bool {
    exists|i: int| 0 <= i < s.len() && (#[trigger] s[i]).wallet_address == a
}

/// Whether `s` binds the username `u` to the address `a`.
pub open spec fn bound_to(s: Seq<BindingView>, u: Seq<char>, a: Seq<char>) -> bool {
    s.contains(BindingView { github_username: u, wallet_address: a })
}

/// The bindings that stay when `u` is bound to `a`: those that have neither
/// that username nor that address.
pub open spec fn survives(b: BindingView, u: Seq<char>, a: Seq<char>) -> bool {
    b.github_username != u && b.wallet_address != a
}

/// The number of bindings of `s` whose username is not behind `cursor`.
pub open spec fn count_up_to(s: Seq<BindingView>, cursor: Seq<char>) -> nat
    decreases s.len(),
{
    if s.len() == 0 {
        0
    } else {
        count_up_to(s.drop_last(), cursor) + if lex_less(cursor, s.last().github_username) {
            0nat
        } else {
            1nat
        }
    }
}

/// The effective size of a page: the limit asked for, capped.
pub open spec fn page_size(limit: nat) -> nat {
    if limit < MAX_PAGE_SIZE {
        limit
    } else {
        MAX_PAGE_SIZE as nat
    }
}

/// At most `size` bindings of `s`, from position `start` on.
pub open spec fn page_slice(s: Seq<BindingView>, start: nat, size: nat) -> Seq<BindingView> {
    let from = if start < s.len() {
        start
    } else {
        s.len()
    };
    let to = if from + size < s.len() {
        from + size
    } else {
        s.len()
    };
    s.subrange(from as int, to as int)
}

/// Where a walk by cursor starts: at the front, or behind the cursor.
pub open spec fn cursor_start(s: Seq<BindingView>, start_after: Option<Seq<char>>) -> nat {
    match start_after {
        Some(cursor) => count_up_to(s, cursor),
        None => 0,
    }
}

/// The cursor that a page hands out: the last username of a full page, and
/// nothing when the page is not full, which tells that the listing ends.
pub open spec fn next_cursor_of(page: Seq<BindingView>, size: nat) -> Option<Seq<char>> {
    if page.len() > 0 && page.len() == size {
        Some(page.last().github_username)
    } else {
        None
    }
}

/// A binding as it is listed, with the social handle recorded for its
/// username.
pub open spec fn listed(b: BindingView, handles: Map<Seq<char>, Seq<char>>) -> VerificationView {
    VerificationView {
        github_username: b.github_username,
        wallet_address: b.wallet_address,
        x_username: if handles.contains_key(b.github_username) {
            Some(handles[b.github_username])
        } else {
            None
        },
    }
}

/// A page of bindings as it is listed.
pub open spec fn listing(s: Seq<BindingView>, handles: Map<Seq<char>, Seq<char>>) -> Seq<
    VerificationView,
> {
    s.map_values(|b: BindingView| listed(b, handles))
}

/// In a well-formed registry two different bindings share neither username
/// nor address: the bindings are a bijection.
pub proof fn lemma_bijection(s: Seq<BindingView>, i: int, j: int)
    requires
        bindings_wf(s),
        0 <= i < s.len(),
        0 <= j < s.len(),
        i != j,
    ensures
        s[i].github_username != s[j].github_username,
        s[i].wallet_address != s[j].wallet_address,
{
    if i < j {
        lemma_lex_irreflexive(s[i].github_username);
    } else {
        lemma_lex_irreflexive(s[j].github_username);
    }
}

/// A username is bound to one address at most, and an address to one
/// username at most.
pub proof fn lemma_bound_once(s: Seq<BindingView>, b1: BindingView, b2: BindingView)
    requires
        bindings_wf(s),
        s.contains(b1),
        s.contains(b2),
        b1.github_username == b2.github_username || b1.wallet_address == b2.wallet_address,
    ensures
        b1 == b2,
{
    let i = choose|i: int| 0 <= i < s.len() && s[i] == b1;
    let j = choose|j: int| 0 <= j < s.len() && s[j] == b2;
    if i != j {
        lemma_bijection(s, i, j);
    }
}

/// Two well-formed listings with the same bindings are the same listing: the
/// order is fixed by the usernames.
pub proof fn lemma_listing_unique(s1: Seq<BindingView>, s2: Seq<BindingView>)
    requires
        bindings_wf(s1),
        bindings_wf(s2),
        forall|b: BindingView| s1.contains(b) <==> s2.contains(b),
    ensures
        s1 == s2,
    decreases s1.len(),
{
    if s1.len() == 0 {
        if s2.len() > 0 {
            assert(s2.contains(s2[0]));
        }
        assert(s1 =~= s2);
    } else {
        assert(s1.contains(s1[0]));
        let j = choose|j: int| 0 <= j < s2.len() && s2[j] == s1[0];
        assert(s2.contains(s2[0]));
        let i = choose|i: int| 0 <= i < s1.len() && s1[i] == s2[0];
        if i > 0 {
            // s1[0] < s1[i] == s2[0] <= s2[j] == s1[0]
            if j > 0 {
                lemma_lex_transitive(
                    s1[0].github_username,
                    s1[i].github_username,
                    s2[j].github_username,
                );
            }
            lemma_lex_irreflexive(s1[0].github_username);
        }
        assert(s1[0] == s2[0]);
        let t1 = s1.drop_first();
        let t2 = s2.drop_first();
        assert forall|b: BindingView| t1.contains(b) <==> t2.contains(b) by {
            if t1.contains(b) {
                let k = choose|k: int| 0 <= k < t1.len() && t1[k] == b;
                assert(s1[k + 1] == b);
                lemma_bijection(s1, 0, k + 1);
                assert(s1.contains(b));
                let m = choose|m: int| 0 <= m < s2.len() && s2[m] == b;
                assert(t2[m - 1] == b);
            }
            if t2.contains(b) {
                let k = choose|k: int| 0 <= k < t2.len() && t2[k] == b;
                assert(s2[k + 1] == b);
                lemma_bijection(s2, 0, k + 1);
                assert(s2.contains(b));
                let m = choose|m: int| 0 <= m < s1.len() && s1[m] == b;
                assert(t1[m - 1] == b);
            }
        }
        assert forall|x: int, y: int| 0 <= x < y < t1.len() implies lex_less(
            (#[trigger] t1[x]).github_username,
            (#[trigger] t1[y]).github_username,
        ) by {
            assert(t1[x] == s1[x + 1] && t1[y] == s1[y + 1]);
        }
        assert forall|x: int, y: int| 0 <= x < y < t2.len() implies lex_less(
            (#[trigger] t2[x]).github_username,
            (#[trigger] t2[y]).github_username,
        ) by {
            assert(t2[x] == s2[x + 1] && t2[y] == s2[y + 1]);
        }
        assert forall|x: int, y: int| 0 <= x < y < t1.len() implies (
        #[trigger] t1[x]).wallet_address != (#[trigger] t1[y]).wallet_address by {
            assert(t1[x] == s1[x + 1] && t1[y] == s1[y + 1]);
        }
        assert forall|x: int, y: int| 0 <= x < y < t2.len() implies (
        #[trigger] t2[x]).wallet_address != (#[trigger] t2[y]).wallet_address by {
            assert(t2[x] == s2[x + 1] && t2[y] == s2[y + 1]);
        }
        assert forall|x: int| 0 <= x < t1.len() implies (#[trigger] t1[x]).github_username.len()
            > 0 by {
            assert(t1[x] == s1[x + 1]);
        }
        assert forall|x: int| 0 <= x < t2.len() implies (#[trigger] t2[x]).github_username.len()
            > 0 by {
            assert(t2[x] == s2[x + 1]);
        }
        lemma_listing_unique(t1, t2);
        assert(s1 =~= seq![s1[0]] + t1);
        assert(s2 =~= seq![s2[0]] + t2);
    }
}

/// How the bindings `after` come from the bindings `before` when `u` is bound
/// to `a`: the new pair is there, and of the old pairs exactly those that have
/// neither `u` nor `a`. With `lemma_listing_unique` this fixes `after`.
pub open spec fn rebound(
    before: Seq<BindingView>,
    after: Seq<BindingView>,
    u: Seq<char>,
    a: Seq<char>,
) -> bool {
    &&& bindings_wf(after)
    &&& forall|b: BindingView| #[trigger]
        after.contains(b) <==> (b == (BindingView { github_username: u, wallet_address: a }) || (
        before.contains(b) && survives(b, u, a)))
}

/// How the bindings `after` come from the bindings `before` when `u` is
/// unbound: exactly the pairs without `u` stay.
pub open spec fn unbound(before: Seq<BindingView>, after: Seq<BindingView>, u: Seq<char>) -> bool {
    &&& bindings_wf(after)
    &&& forall|b: BindingView| #[trigger]
        after.contains(b) <==> before.contains(b) && b.github_username != u
}

/// The verified contributors of a list, as they are listed, in the order of
/// the list.
pub open spec fn verified_of(
    usernames: Seq<Seq<char>>,
    s: Seq<BindingView>,
    handles: Map<Seq<char>, Seq<char>>,
) -> Seq<VerificationView>
    decreases usernames.len(),
{
    if usernames.len() == 0 {
        Seq::empty()
    } else {
        let front = verified_of(usernames.drop_last(), s, handles);
        let u = usernames.last();
        if has_username(s, u) {
            front.push(listed(s[index_of_username(s, u)], handles))
        } else {
            front
        }
    }
}

/// The usernames of a list that are bound to no address, in the order of the
/// list.
pub open spec fn unverified_of(usernames: Seq<Seq<char>>, s: Seq<BindingView>) -> Seq<Seq<char>>
    decreases usernames.len(),
{
    if usernames.len() == 0 {
        Seq::empty()
    } else {
        let front = unverified_of(usernames.drop_last(), s);
        let u = usernames.last();
        if has_username(s, u) {
            front
        } else {
            front.push(u)
        }
    }
}

/// The position of the binding of the username `u`.
pub open spec fn index_of_username(s: Seq<BindingView>, u: Seq<char>) -> int {
    choose|i: int| 0 <= i < s.len() && (#[trigger] s[i]).github_username == u
}

/// The recipient of a payment to `u`: the address bound to the username, or,
/// as long as there is none, the text `pending:` and the username.
pub open spec fn recipient_of(s: Seq<BindingView>, u: Seq<char>) -> Seq<char> {
    if has_username(s, u) {
        s[index_of_username(s, u)].wallet_address
    } else {
        "pending:"@ + u
    }
}

/// A username that is bound to an address is paid at that address.
pub proof fn lemma_recipient_bound(s: Seq<BindingView>, u: Seq<char>, a: Seq<char>)
    requires
        bindings_wf(s),
        bound_to(s, u, a),
    ensures
        has_username(s, u),
        recipient_of(s, u) == a,
{
    let b = BindingView { github_username: u, wallet_address: a };
    let i = choose|i: int| 0 <= i < s.len() && s[i] == b;
    assert(s[i].github_username == u);
    let j = index_of_username(s, u);
    if i != j {
        lemma_bijection(s, i, j);
    }
}

} // verus!
