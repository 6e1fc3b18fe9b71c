//! The identity registry as it is stored and changed.

use crate::assoc::{map_of, TextMap};
use crate::identity::{
    bindings_wf, bound_to, count_up_to, cursor_start, has_address, has_username, lemma_bijection,
    listed, listing, next_cursor_of, page_size, page_slice, rebound, unbound, Binding,
    BindingView, MAX_PAGE_SIZE,
};
use crate::text::{lemma_lex_total, lemma_lex_transitive, lex_less, text_less};
use crate::types::{text_option_view, Verification, VerificationPage};
use vstd::prelude::*;

verus! {

proof fn lemma_remove_binding(s: Seq<BindingView>, i: int)
    requires
        bindings_wf(s),
        0 <= i < s.len(),
    ensures
        bindings_wf(s.remove(i)),
        forall|x: BindingView| #[trigger] s.remove(i).contains(x) <==> s.contains(x) && x != s[i],
{
    let t = s.remove(i);
    assert forall|k: int| 0 <= k < t.len() implies #[trigger] t[k] == s[if k < i {
        k
    } else {
        k + 1
    }] by {}
    assert forall|x: BindingView| #[trigger] t.contains(x) <==> s.contains(x) && x != s[i] by {
        if t.contains(x) {
            let k = choose|k: int| 0 <= k < t.len() && t[k] == x;
            let k0 = if k < i {
                k
            } else {
                k + 1
            };
            assert(s[k0] == x);
            lemma_bijection(s, k0, i);
        }
        if s.contains(x) && x != s[i] {
            let k0 = choose|k0: int| 0 <= k0 < s.len() && s[k0] == x;
            let k = if k0 < i {
                k0
            } else {
                k0 - 1
            };
            assert(t[k] == x);
        }
    }
}

proof fn lemma_insert_binding(s: Seq<BindingView>, k: int, b: BindingView)
    requires
        bindings_wf(s),
        0 <= k <= s.len(),
        b.github_username.len() > 0,
        forall|j: int| 0 <= j < k ==> lex_less((#[trigger] s[j]).github_username, b.github_username),
        forall|j: int|
            k <= j < s.len() ==> lex_less(b.github_username, (#[trigger] s[j]).github_username),
        forall|j: int| 0 <= j < s.len() ==> (#[trigger] s[j]).wallet_address != b.wallet_address,
    ensures
        bindings_wf(s.insert(k, b)),
        forall|x: BindingView| #[trigger] s.insert(k, b).contains(x) <==> s.contains(x) || x == b,
{
    let t = s.insert(k, b);
    assert forall|m: int| 0 <= m < t.len() implies #[trigger] t[m] == (if m < k {
        s[m]
    } else if m == k {
        b
    } else {
        s[m - 1]
    }) by {}
    assert forall|x: BindingView| #[trigger] t.contains(x) <==> s.contains(x) || x == b by {
        if t.contains(x) {
            let m = choose|m: int| 0 <= m < t.len() && t[m] == x;
            if m < k {
                assert(s[m] == x);
            } else if m > k {
                assert(s[m - 1] == x);
            }
        }
        if s.contains(x) {
            let m0 = choose|m0: int| 0 <= m0 < s.len() && s[m0] == x;
            let m = if m0 < k {
                m0
            } else {
                m0 + 1
            };
            assert(t[m] == x);
        }
        if x == b {
            assert(t[k] == x);
        }
    }
}

/// In a listing by username, the bindings that are not behind a cursor are
/// those before the first binding that is behind it.
pub proof fn lemma_count_up_to(s: Seq<BindingView>, cursor: Seq<char>, k: int)
    requires
        bindings_wf(s),
        0 <= k <= s.len(),
        forall|j: int| 0 <= j < k ==> !lex_less(cursor, (#[trigger] s[j]).github_username),
        k == s.len() || lex_less(cursor, s[k].github_username),
    ensures
        count_up_to(s, cursor) == k,
    decreases s.len(),
{
    if s.len() > 0 {
        let front = s.drop_last();
        assert forall|i: int, j: int| 0 <= i < j < front.len() implies lex_less(
            (#[trigger] front[i]).github_username,
            (#[trigger] front[j]).github_username,
        ) by {
            assert(front[i] == s[i] && front[j] == s[j]);
        }
        assert forall|i: int, j: int| 0 <= i < j < front.len() implies (
        #[trigger] front[i]).wallet_address != (#[trigger] front[j]).wallet_address by {
            assert(front[i] == s[i] && front[j] == s[j]);
        }
        assert forall|i: int| 0 <= i < front.len() implies (#[trigger] front[i]).github_username.len()
            > 0 by {
            assert(front[i] == s[i]);
        }
        if k == s.len() {
            assert forall|j: int| 0 <= j < k - 1 implies !lex_less(
                cursor,
                (#[trigger] front[j]).github_username,
            ) by {
                assert(front[j] == s[j]);
            }
            assert(!lex_less(cursor, s[k - 1].github_username));
            lemma_count_up_to(front, cursor, k - 1);
        } else {
            if k < s.len() - 1 {
                lemma_lex_transitive(cursor, s[k].github_username, s.last().github_username);
            }
            assert forall|j: int| 0 <= j < k implies !lex_less(
                cursor,
                (#[trigger] front[j]).github_username,
            ) by {
                assert(front[j] == s[j]);
            }
            if k < front.len() {
                assert(front[k] == s[k]);
            }
            lemma_count_up_to(front, cursor, k);
        }
    }
}

fn position_of_username(bindings: &Vec<Binding>, username: &String) -> (r: Option<usize>)
    ensures
        match r {
            Some(i) => i < bindings.len() && bindings.deep_view()[i as int].github_username
                == username@,
            None => !has_username(bindings.deep_view(), username@),
        },
{
    let mut i: usize = 0;
    while i < bindings.len()
        invariant
            i <= bindings.len(),
            forall|j: int|
                0 <= j < i ==> (#[trigger] bindings.deep_view()[j]).github_username != username@,
        decreases bindings.len() - i,
    {
        if bindings[i].github_username == *username {
            return Some(i);
        }
        i += 1;
    }
    None
}

fn position_of_address(bindings: &Vec<Binding>, address: &String) -> (r: Option<usize>)
    ensures
        match r {
            Some(i) => i < bindings.len() && bindings.deep_view()[i as int].wallet_address
                == address@,
            None => !has_address(bindings.deep_view(), address@),
        },
{
    let mut i: usize = 0;
    while i < bindings.len()
        invariant
            i <= bindings.len(),
            forall|j: int|
                0 <= j < i ==> (#[trigger] bindings.deep_view()[j]).wallet_address != address@,
        decreases bindings.len() - i,
    {
        if bindings[i].wallet_address == *address {
            return Some(i);
        }
        i += 1;
    }
    None
}

/// Takes the binding of `username` out, if there is one, and returns whether
/// there was one.
fn unbind_username(bindings: &mut Vec<Binding>, username: &String) -> (found: bool)
    requires
        bindings_wf(old(bindings).deep_view()),
    ensures
        unbound(old(bindings).deep_view(), final(bindings).deep_view(), username@),
        found == has_username(old(bindings).deep_view(), username@),
{
    let ghost s = bindings.deep_view();
    match position_of_username(bindings, username) {
        Some(i) => {
            bindings.remove(i);
            proof {
                assert(bindings.deep_view() =~= s.remove(i as int));
                lemma_remove_binding(s, i as int);
                assert forall|x: BindingView| s.contains(x) && x != s[i as int] implies x.github_username
                    != username@ by {
                    let m = choose|m: int| 0 <= m < s.len() && s[m] == x;
                    lemma_bijection(s, m, i as int);
                }
            }
            true
        },
        None => {
            proof {
                assert forall|x: BindingView| s.contains(x) implies x.github_username
                    != username@ by {
                    let m = choose|m: int| 0 <= m < s.len() && s[m] == x;
                    assert(s[m].github_username != username@);
                }
            }
            false
        },
    }
}

/// Takes the binding of `address` out, if there is one.
fn unbind_address(bindings: &mut Vec<Binding>, address: &String)
    requires
        bindings_wf(old(bindings).deep_view()),
    ensures
        bindings_wf(final(bindings).deep_view()),
        forall|x: BindingView| #[trigger]
            final(bindings).deep_view().contains(x) <==> old(bindings).deep_view().contains(x)
                && x.wallet_address != address@,
{
    let ghost s = bindings.deep_view();
    match position_of_address(bindings, address) {
        Some(i) => {
            bindings.remove(i);
            proof {
                assert(bindings.deep_view() =~= s.remove(i as int));
                lemma_remove_binding(s, i as int);
                assert forall|x: BindingView| s.contains(x) && x != s[i as int] implies x.wallet_address
                    != address@ by {
                    let m = choose|m: int| 0 <= m < s.len() && s[m] == x;
                    lemma_bijection(s, m, i as int);
                }
            }
        },
        None => {
            proof {
                assert forall|x: BindingView| s.contains(x) implies x.wallet_address
                    != address@ by {
                    let m = choose|m: int| 0 <= m < s.len() && s[m] == x;
                    assert(s[m].wallet_address != address@);
                }
            }
        },
    }
}

/// Puts a binding in at the place of its username. Neither its username nor
/// its address is bound yet.
fn insert_binding(bindings: &mut Vec<Binding>, binding: Binding)
    requires
        bindings_wf(old(bindings).deep_view()),
        binding@.github_username.len() > 0,
        !has_username(old(bindings).deep_view(), binding@.github_username),
        !has_address(old(bindings).deep_view(), binding@.wallet_address),
    ensures
        bindings_wf(final(bindings).deep_view()),
        forall|x: BindingView| #[trigger]
            final(bindings).deep_view().contains(x) <==> old(bindings).deep_view().contains(x) || x
                == binding@,
{
    let ghost s = bindings.deep_view();
    let ghost fresh = binding@;
    let mut k: usize = 0;
    while k < bindings.len() && !text_less(
        binding.github_username.as_str(),
        bindings[k].github_username.as_str(),
    )
        invariant
            k <= bindings.len(),
            s == bindings.deep_view(),
            fresh == binding@,
            forall|j: int|
                0 <= j < k ==> !lex_less(fresh.github_username, (#[trigger] s[j]).github_username),
        decreases bindings.len() - k,
    {
        k += 1;
    }
    proof {
        assert forall|j: int| 0 <= j < k implies lex_less(
            (#[trigger] s[j]).github_username,
            fresh.github_username,
        ) by {
            lemma_lex_total(fresh.github_username, s[j].github_username);
        }
        assert forall|j: int| k <= j < s.len() implies lex_less(
            fresh.github_username,
            (#[trigger] s[j]).github_username,
        ) by {
            if j > k {
                lemma_lex_transitive(
                    fresh.github_username,
                    s[k as int].github_username,
                    s[j].github_username,
                );
            }
        }
        lemma_insert_binding(s, k as int, fresh);
    }
    bindings.insert(k, binding);
    assert(bindings.deep_view() =~= s.insert(k as int, fresh));
}

/// The verified identities, with the social handles recorded for usernames.
pub struct IdentityRegistry {
    bindings: Vec<Binding>,
    handles: TextMap<String>,
}

impl IdentityRegistry {
    /// The bindings, in the order of their usernames.
    pub closed spec fn bindings(&self) -> Seq<BindingView> {
        self.bindings.deep_view()
    }

    /// The social handle recorded for each username that has one.
    pub closed spec fn handles(&self) -> Map<Seq<char>, Seq<char>> {
        self.handles@
    }

    /// The bindings are a bijection in the order of the usernames.
    pub closed spec fn wf(&self) -> bool {
        &&& bindings_wf(self.bindings.deep_view())
        &&& self.handles.wf()
    }

    /// What `wf` says of the bindings.
    pub proof fn lemma_wf(&self)
        requires
            self.wf(),
        ensures
            bindings_wf(self.bindings()),
    {
    }

    /// A registry without bindings or handles.
    pub fn new() -> (r: Self)
        ensures
            r.wf(),
            r.bindings() == Seq::<BindingView>::empty(),
            r.handles() == Map::<Seq<char>, Seq<char>>::empty(),
    {
        let r = IdentityRegistry { bindings: Vec::new(), handles: TextMap::new() };
        assert(r.bindings.deep_view() =~= Seq::<BindingView>::empty());
        r
    }

    /// The address bound to `username`, which is taken as it is.
    pub fn address_of(&self, username: &String) -> (r: Option<String>)
        requires
            self.wf(),
        ensures
            match r {
                Some(a) => bound_to(self.bindings(), username@, a@),
                None => !has_username(self.bindings(), username@),
            },
    {
        match position_of_username(&self.bindings, username) {
            Some(i) => {
                let a = self.bindings[i].wallet_address.clone();
                assert(self.bindings.deep_view()[i as int] == BindingView {
                    github_username: username@,
                    wallet_address: a@,
                });
                Some(a)
            },
            None => None,
        }
    }

    /// The username bound to `address`.
    pub fn username_of(&self, address: &String) -> (r: Option<String>)
        requires
            self.wf(),
        ensures
            match r {
                Some(u) => bound_to(self.bindings(), u@, address@),
                None => !has_address(self.bindings(), address@),
            },
    {
        match position_of_address(&self.bindings, address) {
            Some(i) => {
                let u = self.bindings[i].github_username.clone();
                assert(self.bindings.deep_view()[i as int] == BindingView {
                    github_username: u@,
                    wallet_address: address@,
                });
                Some(u)
            },
            None => None,
        }
    }

    /// The social handle recorded for `username`.
    pub fn handle_of(&self, username: &String) -> (r: Option<String>)
        requires
            self.wf(),
        ensures
            match r {
                Some(x) => self.handles().contains_key(username@) && x@ == self.handles()[username@],
                None => !self.handles().contains_key(username@),
            },
    {
        match self.handles.get(username) {
            Some(x) => Some(x.clone()),
            None => None,
        }
    }

    /// Records `handle` as the social handle of `username`.
    pub fn set_handle(&mut self, username: String, handle: String)
        requires
            old(self).wf(),
        ensures
            final(self).wf(),
            final(self).bindings() == old(self).bindings(),
            final(self).handles() == old(self).handles().insert(username@, handle@),
    {
        self.handles.insert(username, handle);
    }

    /// Binds `username` to `address`. Whatever was bound to either before is
    /// unbound first, so the bindings stay a bijection.
    pub fn bind(&mut self, username: String, address: String)
        requires
            old(self).wf(),
            username@.len() > 0,
        ensures
            final(self).wf(),
            final(self).handles() == old(self).handles(),
            rebound(old(self).bindings(), final(self).bindings(), username@, address@),
    {
        unbind_username(&mut self.bindings, &username);
        unbind_address(&mut self.bindings, &address);
        proof {
            let rest = self.bindings.deep_view();
            assert forall|j: int| 0 <= j < rest.len() implies (#[trigger] rest[j]).github_username
                != username@ && rest[j].wallet_address != address@ by {
                assert(rest.contains(rest[j]));
            }
        }
        insert_binding(
            &mut self.bindings,
            Binding { github_username: username, wallet_address: address },
        );
    }

    /// Unbinds `username` and forgets its social handle. Returns whether
    /// there was anything to take away.
    pub fn revoke(&mut self, username: &String) -> (r: bool)
        requires
            old(self).wf(),
        ensures
            final(self).wf(),
            final(self).handles() == old(self).handles().remove(username@),
            unbound(old(self).bindings(), final(self).bindings(), username@),
            r == (has_username(old(self).bindings(), username@) || old(self).handles().contains_key(
                username@,
            )),
    {
        let was_bound = unbind_username(&mut self.bindings, username);
        let had_handle = self.handles.remove(username);
        was_bound || had_handle
    }

    /// The entries of the bindings from position `from` up to `to`.
    fn entries(&self, from: usize, to: usize) -> (r: Vec<Verification>)
        requires
            self.wf(),
            from <= to <= self.bindings().len(),
        ensures
            r.deep_view() == listing(
                self.bindings().subrange(from as int, to as int),
                self.handles(),
            ),
    {
        let mut out: Vec<Verification> = Vec::new();
        let mut i: usize = from;
        assert(out.deep_view() =~= listing(
            self.bindings().subrange(from as int, i as int),
            self.handles(),
        ));
        while i < to
            invariant
                self.wf(),
                from <= i <= to <= self.bindings.len(),
                out.deep_view() == listing(
                    self.bindings().subrange(from as int, i as int),
                    self.handles(),
                ),
            decreases to - i,
        {
            let b = &self.bindings[i];
            let x = self.handle_of(&b.github_username);
            let entry = Verification {
                github_username: b.github_username.clone(),
                wallet_address: b.wallet_address.clone(),
                x_username: x,
            };
            assert(entry@ == listed(self.bindings()[i as int], self.handles()));
            let ghost before = out.deep_view();
            let ghost listed_entry = entry@;
            out.push(entry);
            i += 1;
            proof {
                let part = self.bindings().subrange(from as int, i as int);
                let now = listing(part, self.handles());
                assert(self.bindings().len() == self.bindings.len());
                assert(before.len() == i - 1 - from);
                assert(out.deep_view().len() == now.len());
                assert forall|k: int| 0 <= k < now.len() implies out.deep_view()[k] == now[k] by {
                    if k < before.len() {
                        assert(out.deep_view()[k] == before[k]);
                        assert(part[k] == self.bindings().subrange(from as int, i - 1)[k]);
                    } else {
                        assert(out.deep_view()[k] == listed_entry);
                        assert(part[k] == self.bindings()[i - 1]);
                    }
                }
                assert(out.deep_view() =~= now);
            }
        }
        out
    }

    /// The page of at most `limit` entries that starts at position `offset`
    /// of the listing by username.
    pub fn page(&self, offset: usize, limit: usize) -> (r: Vec<Verification>)
        requires
            self.wf(),
        ensures
            r.deep_view() == listing(
                page_slice(self.bindings(), offset as nat, page_size(limit as nat)),
                self.handles(),
            ),
    {
        let size = if limit < MAX_PAGE_SIZE {
            limit
        } else {
            MAX_PAGE_SIZE
        };
        let n = self.bindings.len();
        let from = if offset < n {
            offset
        } else {
            n
        };
        let to = if size < n - from {
            from + size
        } else {
            n
        };
        self.entries(from, to)
    }

    /// The page of at most `limit` entries that follows the username
    /// `start_after` in the listing by username, or that starts the listing,
    /// with the cursor for the page after it.
    pub fn page_after(&self, start_after: &Option<String>, limit: usize) -> (r: VerificationPage)
        requires
            self.wf(),
        ensures
            r.entries.deep_view() == listing(
                page_slice(
                    self.bindings(),
                    cursor_start(self.bindings(), text_option_view(*start_after)),
                    page_size(limit as nat),
                ),
                self.handles(),
            ),
            text_option_view(r.next_cursor) == next_cursor_of(
                page_slice(
                    self.bindings(),
                    cursor_start(self.bindings(), text_option_view(*start_after)),
                    page_size(limit as nat),
                ),
                page_size(limit as nat),
            ),
    {
        let size = if limit < MAX_PAGE_SIZE {
            limit
        } else {
            MAX_PAGE_SIZE
        };
        let n = self.bindings.len();
        let ghost s = self.bindings();
        let from = match start_after {
            Some(cursor) => {
                let mut k: usize = 0;
                while k < n && !text_less(cursor.as_str(), self.bindings[k].github_username.as_str())
                    invariant
                        k <= n == self.bindings.len(),
                        s == self.bindings.deep_view(),
                        forall|j: int|
                            0 <= j < k ==> !lex_less(cursor@, (#[trigger] s[j]).github_username),
                    decreases n - k,
                {
                    k += 1;
                }
                proof {
                    lemma_count_up_to(s, cursor@, k as int);
                }
                k
            },
            None => 0,
        };
        let to = if size < n - from {
            from + size
        } else {
            n
        };
        let entries = self.entries(from, to);
        let next_cursor = if to > from && to - from == size {
            Some(self.bindings[to - 1].github_username.clone())
        } else {
            None
        };
        VerificationPage { entries, next_cursor }
    }

    /// Takes the registry apart: the bindings in the order of their
    /// usernames, and the usernames that have a social handle with their
    /// handles.
    pub fn into_parts(self) -> (r: (Vec<Binding>, Vec<String>, Vec<String>))
        requires
            self.wf(),
        ensures
            r.0.deep_view() == self.bindings(),
            r.1.len() == r.2.len(),
            map_of(r.1.deep_view(), r.2.deep_view()) == self.handles(),
    {
        let (usernames, handles) = self.handles.into_parts();
        (self.bindings, usernames, handles)
    }

    /// Puts a registry together from bindings and from usernames with their
    /// social handles. Returns nothing if the bindings are not a bijection in
    /// the order of the usernames, or if a handle or its username is missing.
    pub fn from_parts(bindings: Vec<Binding>, usernames: Vec<String>, handles: Vec<String>) -> (r:
        Option<Self>)
        ensures
            match r {
                Some(registry) => {
                    &&& registry.wf()
                    &&& registry.bindings() == bindings.deep_view()
                    &&& usernames.len() == handles.len()
                    &&& registry.handles() == map_of(usernames.deep_view(), handles.deep_view())
                },
                None => !bindings_wf(bindings.deep_view()) || usernames.len() != handles.len(),
            },
    {
        if usernames.len() != handles.len() || !check_bindings(&bindings) {
            return None;
        }
        let ghost keys = usernames.deep_view();
        let ghost values = handles.deep_view();
        let mut map: TextMap<String> = TextMap::new();
        let mut i: usize = 0;
        proof {
            assert(keys.take(0) =~= Seq::<Seq<char>>::empty());
        }
        while i < usernames.len()
            invariant
                i <= usernames.len() == handles.len(),
                keys == usernames.deep_view(),
                values == handles.deep_view(),
                map.wf(),
                map@ == map_of(keys.take(i as int), values.take(i as int)),
            decreases usernames.len() - i,
        {
            proof {
                assert(keys.take(i + 1).drop_last() =~= keys.take(i as int));
                assert(values.take(i + 1).drop_last() =~= values.take(i as int));
                assert(keys.take(i + 1).last() == usernames[i as int]@);
                assert(values.take(i + 1).last() == handles[i as int]@);
            }
            map.insert(usernames[i].clone(), handles[i].clone());
            i += 1;
        }
        proof {
            assert(keys.take(i as int) =~= keys);
            assert(values.take(i as int) =~= values);
        }
        Some(IdentityRegistry { bindings, handles: map })
    }
}

/// Whether a list of bindings is a bijection between non-empty usernames and
/// addresses, in the order of the usernames.
pub fn check_bindings(bindings: &Vec<Binding>) -> (r: bool)
    ensures
        r == bindings_wf(bindings.deep_view()),
{
    let ghost s = bindings.deep_view();
    let mut i: usize = 0;
    while i < bindings.len()
        invariant
            i <= bindings.len(),
            s == bindings.deep_view(),
            forall|k: int, m: int|
                0 <= k < m < i ==> lex_less(
                    (#[trigger] s[k]).github_username,
                    (#[trigger] s[m]).github_username,
                ),
            forall|k: int, m: int|
                0 <= k < m < i ==> (#[trigger] s[k]).wallet_address != (
                #[trigger] s[m]).wallet_address,
            forall|k: int| 0 <= k < i ==> (#[trigger] s[k]).github_username.len() > 0,
        decreases bindings.len() - i,
    {
        assert(bindings[i as int]@ == s[i as int]);
        if bindings[i].github_username.as_str().is_empty() {
            return false;
        }
        if i > 0 {
            assert(bindings[i - 1]@ == s[i - 1]);
            if !text_less(
                bindings[i - 1].github_username.as_str(),
                bindings[i].github_username.as_str(),
            ) {
                assert(!lex_less(s[i - 1].github_username, s[i as int].github_username));
                return false;
            }
            proof {
                assert forall|k: int| 0 <= k < i implies lex_less(
                    (#[trigger] s[k]).github_username,
                    s[i as int].github_username,
                ) by {
                    if k < i - 1 {
                        lemma_lex_transitive(
                            s[k].github_username,
                            s[i - 1].github_username,
                            s[i as int].github_username,
                        );
                    }
                }
            }
        }
        let mut k: usize = 0;
        while k < i
            invariant
                k <= i < bindings.len(),
                s == bindings.deep_view(),
                forall|m: int|
                    0 <= m < k ==> (#[trigger] s[m]).wallet_address != s[i as int].wallet_address,
            decreases i - k,
        {
            assert(bindings[k as int]@ == s[k as int]);
            assert(bindings[i as int]@ == s[i as int]);
            if bindings[k].wallet_address == bindings[i].wallet_address {
                assert(s[k as int].wallet_address == s[i as int].wallet_address);
                return false;
            }
            k += 1;
        }
        i += 1;
    }
    true
}

} // verus!
