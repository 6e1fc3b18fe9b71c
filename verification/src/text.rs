//! Canonical form of GitHub usernames.

use vstd::prelude::*;

verus! {

/// Characters with the Unicode `White_Space` property.
pub open spec fn is_space(c: char) -> bool {
    let n = c as u32;
    ||| 0x09 <= n <= 0x0D
    ||| n == 0x20
    ||| n == 0x85
    ||| n == 0xA0
    ||| n == 0x1680
    ||| 0x2000 <= n <= 0x200A
    ||| n == 0x2028
    ||| n == 0x2029
    ||| n == 0x202F
    ||| n == 0x205F
    ||| n == 0x3000
}

/// The ASCII lower-case form of a character; only `A`..`Z` change.
pub open spec fn lower(c: char) -> char {
    if 'A' <= c <= 'Z' {
        ((c as u8) + 32) as char
    } else {
        c
    }
}

/// Number of whitespace characters at the front of `s`.
pub open spec fn leading_spaces(s: Seq<char>) -> nat
    decreases s.len(),
{
    if s.len() > 0 && is_space(s[0]) {
        1 + leading_spaces(s.drop_first())
    } else {
        0
    }
}

/// Number of whitespace characters at the back of `s`.
pub open spec fn trailing_spaces(s: Seq<char>) -> nat
    decreases s.len(),
{
    if s.len() > 0 && is_space(s.last()) {
        1 + trailing_spaces(s.drop_last())
    } else {
        0
    }
}

/// Number of `@` characters at the front of `s`.
pub open spec fn leading_ats(s: Seq<char>) -> nat
    decreases s.len(),
{
    if s.len() > 0 && s[0] == '@' {
        1 + leading_ats(s.drop_first())
    } else {
        0
    }
}

/// `s` without its leading and trailing whitespace.
pub open spec fn trimmed(s: Seq<char>) -> Seq<char> {
    let rest = s.skip(leading_spaces(s) as int);
    rest.take(rest.len() - trailing_spaces(rest))
}

/// The canonical form of a username: whitespace trimmed from both ends, then
/// every leading `@` dropped, then ASCII letters lower-cased.
pub open spec fn normalized(s: Seq<char>) -> Seq<char> {
    let t = trimmed(s);
    t.skip(leading_ats(t) as int).map_values(|c: char| lower(c))
}

pub fn is_space_char(c: char) -> (b: bool)
    ensures
        b == is_space(c),
{
    let n: u32 = c as u32;
    (0x09 <= n && n <= 0x0D) || n == 0x20 || n == 0x85 || n == 0xA0 || n == 0x1680 || (0x2000 <= n
        && n <= 0x200A) || n == 0x2028 || n == 0x2029 || n == 0x202F || n == 0x205F || n == 0x3000
}

pub fn lower_char(c: char) -> (r: char)
    ensures
        r == lower(c),
{
    if 'A' <= c && c <= 'Z' {
        let b: u8 = c as u8;
        (b + 32) as char
    } else {
        c
    }
}

/// `String::push` appends one character to the end of the string.
pub assume_specification[ String::push ](s: &mut String, ch: char)
    ensures
        final(s)@ == old(s)@.push(ch),
;

proof fn lemma_leading_spaces(s: Seq<char>, k: nat)
    requires
        k <= s.len(),
        forall|i: int| 0 <= i < k ==> is_space(#[trigger] s[i]),
        k == s.len() || !is_space(s[k as int]),
    ensures
        leading_spaces(s) == k,
    decreases k,
{
    if k > 0 {
        let rest = s.drop_first();
        assert forall|i: int| 0 <= i < k - 1 implies is_space(#[trigger] rest[i]) by {
            assert(rest[i] == s[i + 1]);
        }
        lemma_leading_spaces(rest, (k - 1) as nat);
    }
}

proof fn lemma_trailing_spaces(s: Seq<char>, k: nat)
    requires
        k <= s.len(),
        forall|i: int| s.len() - k <= i < s.len() ==> is_space(#[trigger] s[i]),
        k == s.len() || !is_space(s[s.len() - k - 1]),
    ensures
        trailing_spaces(s) == k,
    decreases k,
{
    if k > 0 {
        let rest = s.drop_last();
        assert forall|i: int| rest.len() - (k - 1) <= i < rest.len() implies is_space(
            #[trigger] rest[i],
        ) by {
            assert(rest[i] == s[i]);
        }
        lemma_trailing_spaces(rest, (k - 1) as nat);
    }
}

proof fn lemma_leading_ats(s: Seq<char>, k: nat)
    requires
        k <= s.len(),
        forall|i: int| 0 <= i < k ==> #[trigger] s[i] == '@',
        k == s.len() || s[k as int] != '@',
    ensures
        leading_ats(s) == k,
    decreases k,
{
    if k > 0 {
        let rest = s.drop_first();
        assert forall|i: int| 0 <= i < k - 1 implies #[trigger] rest[i] == '@' by {
            assert(rest[i] == s[i + 1]);
        }
        lemma_leading_ats(rest, (k - 1) as nat);
    }
}

proof fn lemma_leading_spaces_run(s: Seq<char>)
    ensures
        leading_spaces(s) <= s.len(),
        forall|i: int| 0 <= i < leading_spaces(s) ==> is_space(#[trigger] s[i]),
        leading_spaces(s) == s.len() || !is_space(s[leading_spaces(s) as int]),
    decreases s.len(),
{
    if s.len() > 0 && is_space(s[0]) {
        let rest = s.drop_first();
        lemma_leading_spaces_run(rest);
        assert forall|i: int| 0 <= i < leading_spaces(s) implies is_space(#[trigger] s[i]) by {
            if i > 0 {
                assert(s[i] == rest[i - 1]);
            }
        }
        if leading_spaces(s) < s.len() {
            assert(s[leading_spaces(s) as int] == rest[leading_spaces(rest) as int]);
        }
    }
}

proof fn lemma_trailing_spaces_run(s: Seq<char>)
    ensures
        trailing_spaces(s) <= s.len(),
        forall|i: int| s.len() - trailing_spaces(s) <= i < s.len() ==> is_space(#[trigger] s[i]),
        trailing_spaces(s) == s.len() || !is_space(s[s.len() - trailing_spaces(s) - 1]),
    decreases s.len(),
{
    if s.len() > 0 && is_space(s.last()) {
        let rest = s.drop_last();
        lemma_trailing_spaces_run(rest);
        assert forall|i: int| s.len() - trailing_spaces(s) <= i < s.len() implies is_space(
            #[trigger] s[i],
        ) by {
            if i < s.len() - 1 {
                assert(s[i] == rest[i]);
            }
        }
        if trailing_spaces(s) < s.len() {
            assert(s[s.len() - trailing_spaces(s) - 1] == rest[rest.len() - trailing_spaces(rest)
                - 1]);
        }
    }
}

proof fn lemma_leading_ats_run(s: Seq<char>)
    ensures
        leading_ats(s) <= s.len(),
        forall|i: int| 0 <= i < leading_ats(s) ==> #[trigger] s[i] == '@',
        leading_ats(s) == s.len() || s[leading_ats(s) as int] != '@',
    decreases s.len(),
{
    if s.len() > 0 && s[0] == '@' {
        let rest = s.drop_first();
        lemma_leading_ats_run(rest);
        assert forall|i: int| 0 <= i < leading_ats(s) implies #[trigger] s[i] == '@' by {
            if i > 0 {
                assert(s[i] == rest[i - 1]);
            }
        }
        if leading_ats(s) < s.len() {
            assert(s[leading_ats(s) as int] == rest[leading_ats(rest) as int]);
        }
    }
}

/// A trimmed text is a slice of the text that neither starts nor ends with
/// whitespace.
pub proof fn lemma_trimmed_ends(s: Seq<char>)
    ensures
        trimmed(s).len() <= s.len() - leading_spaces(s),
        leading_spaces(s) <= s.len(),
        trimmed(s).len() > 0 ==> !is_space(trimmed(s)[0]) && !is_space(trimmed(s).last()),
        leading_spaces(s) == 0 && trailing_spaces(s) == 0 ==> trimmed(s) == s,
{
    lemma_leading_spaces_run(s);
    let rest = s.skip(leading_spaces(s) as int);
    lemma_trailing_spaces_run(rest);
    if rest.len() > 0 {
        assert(rest[0] == s[leading_spaces(s) as int]);
        if trailing_spaces(rest) == rest.len() {
            assert(is_space(rest[0]));
        }
    }
    if leading_spaces(s) == 0 && trailing_spaces(s) == 0 {
        assert(rest =~= s);
        assert(trimmed(s) =~= s);
    }
}

/// What every canonical username looks like: it is no longer than the input,
/// holds no upper-case ASCII letter, does not start with `@` and does not end
/// with whitespace.
pub proof fn lemma_normalized_shape(s: Seq<char>)
    ensures
        normalized(s).len() <= s.len() - leading_spaces(s),
        forall|i: int|
            0 <= i < normalized(s).len() ==> lower(#[trigger] normalized(s)[i]) == normalized(
                s,
            )[i],
        normalized(s).len() > 0 ==> normalized(s)[0] != '@' && !is_space(normalized(s).last()),
{
    lemma_trimmed_ends(s);
    let t = trimmed(s);
    lemma_leading_ats_run(t);
    let body = t.skip(leading_ats(t) as int);
    if body.len() > 0 {
        assert(body[0] == t[leading_ats(t) as int]);
        assert(body.last() == t.last());
    }
}

/// Normalizing twice gives the same as normalizing once, exactly when the
/// first result does not start with whitespace. (It can: the `@` signs are
/// dropped after trimming, so whitespace behind them comes to the front.)
pub proof fn lemma_normalized_idempotent(s: Seq<char>)
    ensures
        normalized(normalized(s)) == normalized(s) <==> (normalized(s).len() == 0 || !is_space(
            normalized(s)[0],
        )),
{
    let y = normalized(s);
    lemma_normalized_shape(s);
    lemma_normalized_shape(y);
    if y.len() == 0 || !is_space(y[0]) {
        lemma_leading_spaces(y, 0);
        lemma_trailing_spaces(y, 0);
        lemma_trimmed_ends(y);
        lemma_leading_ats(y, 0);
        assert(y.skip(0) =~= y);
        assert(y.map_values(|c: char| lower(c)) =~= y);
    } else {
        assert(leading_spaces(y) >= 1);
    }
}

/// The characters of a text.
pub fn chars_of(s: &str) -> (r: Vec<char>)
    ensures
        r@ == s@,
{
    let mut out: Vec<char> = Vec::new();
    for c in it: s.chars()
        invariant
            it.seq() == s@,
            out@ == it.seq().take(it.index()),
    {
        out.push(c);
        assert(out@ =~= it.seq().take(it.index() + 1));
    }
    assert(out@ =~= s@);
    out
}

/// Brings a GitHub username into its canonical form.
pub fn normalize_username(username: &str) -> (r: String)
    ensures
        r@ == normalized(username@),
{
    let chars = chars_of(username);
    let ghost s = chars@;
    let n: usize = chars.len();
    let mut start: usize = 0;
    while start < n && is_space_char(chars[start])
        invariant
            start <= n == chars.len(),
            s == chars@,
            forall|i: int| 0 <= i < start ==> is_space(#[trigger] s[i]),
        decreases n - start,
    {
        start += 1;
    }
    let ghost rest = s.skip(start as int);
    proof {
        lemma_leading_spaces(s, start as nat);
    }
    let mut end: usize = n;
    while end > start && is_space_char(chars[end - 1])
        invariant
            start <= end <= n == chars.len(),
            s == chars@,
            forall|i: int| end <= i < n ==> is_space(#[trigger] s[i]),
        decreases end,
    {
        end -= 1;
    }
    let ghost t = s.subrange(start as int, end as int);
    proof {
        assert forall|i: int| rest.len() - (n - end) <= i < rest.len() implies is_space(
            #[trigger] rest[i],
        ) by {
            assert(rest[i] == s[i + start]);
        }
        lemma_trailing_spaces(rest, (n - end) as nat);
        assert(trimmed(s) =~= t);
    }
    let mut from: usize = start;
    while from < end && chars[from] == '@'
        invariant
            start <= from <= end <= n == chars.len(),
            s == chars@,
            forall|i: int| start <= i < from ==> #[trigger] s[i] == '@',
        decreases end - from,
    {
        from += 1;
    }
    let ghost body = s.subrange(from as int, end as int);
    proof {
        assert forall|i: int| 0 <= i < from - start implies #[trigger] t[i] == '@' by {
            assert(t[i] == s[i + start]);
        }
        lemma_leading_ats(t, (from - start) as nat);
        assert(t.skip((from - start) as int) =~= body);
    }
    let mut out = String::new();
    let mut i: usize = from;
    while i < end
        invariant
            from <= i <= end <= n == chars.len(),
            s == chars@,
            out@ == s.subrange(from as int, i as int).map_values(|c: char| lower(c)),
        decreases end - i,
    {
        let c = lower_char(chars[i]);
        out.push(c);
        i += 1;
        assert(out@ =~= s.subrange(from as int, i as int).map_values(|c: char| lower(c)));
    }
    out
}

/// Lexicographic order on texts, character by character; a proper prefix
/// comes before the longer text.
pub open spec fn lex_less(a: Seq<char>, b: Seq<char>) -> bool
    decreases a.len(),
{
    if b.len() == 0 {
        false
    } else if a.len() == 0 {
        true
    } else if a[0] != b[0] {
        a[0] < b[0]
    } else {
        lex_less(a.drop_first(), b.drop_first())
    }
}

pub proof fn lemma_lex_irreflexive(a: Seq<char>)
    ensures
        !lex_less(a, a),
    decreases a.len(),
{
    if a.len() > 0 {
        lemma_lex_irreflexive(a.drop_first());
    }
}

pub proof fn lemma_lex_transitive(a: Seq<char>, b: Seq<char>, c: Seq<char>)
    requires
        lex_less(a, b),
        lex_less(b, c),
    ensures
        lex_less(a, c),
    decreases a.len(),
{
    if a.len() > 0 && a[0] == b[0] && b[0] == c[0] {
        lemma_lex_transitive(a.drop_first(), b.drop_first(), c.drop_first());
    }
}

pub proof fn lemma_lex_total(a: Seq<char>, b: Seq<char>)
    ensures
        lex_less(a, b) || lex_less(b, a) || a == b,
        !(lex_less(a, b) && lex_less(b, a)),
    decreases a.len(),
{
    if a.len() > 0 && b.len() > 0 && a[0] == b[0] {
        lemma_lex_total(a.drop_first(), b.drop_first());
        if a.drop_first() == b.drop_first() {
            assert(a =~= seq![a[0]] + a.drop_first());
            assert(b =~= seq![b[0]] + b.drop_first());
        }
    } else if a.len() == 0 && b.len() == 0 {
        assert(a =~= b);
    }
}

proof fn lemma_lex_common_prefix(a: Seq<char>, b: Seq<char>, k: int)
    requires
        0 <= k <= a.len(),
        k <= b.len(),
        a.take(k) == b.take(k),
    ensures
        lex_less(a, b) == lex_less(a.skip(k), b.skip(k)),
    decreases k,
{
    if k == 0 {
        assert(a.skip(0) =~= a);
        assert(b.skip(0) =~= b);
    } else {
        assert(a[0] == a.take(k)[0]);
        assert(b[0] == b.take(k)[0]);
        let a1 = a.drop_first();
        let b1 = b.drop_first();
        assert(a1.take(k - 1) =~= a.take(k).drop_first());
        assert(b1.take(k - 1) =~= b.take(k).drop_first());
        lemma_lex_common_prefix(a1, b1, k - 1);
        assert(a1.skip(k - 1) =~= a.skip(k));
        assert(b1.skip(k - 1) =~= b.skip(k));
    }
}

/// Whether `a` comes strictly before `b` in lexicographic order.
pub fn text_less(a: &str, b: &str) -> (r: bool)
    ensures
        r == lex_less(a@, b@),
{
    let left = chars_of(a);
    let right = chars_of(b);
    let n: usize = left.len();
    let m: usize = right.len();
    let mut i: usize = 0;
    while i < n && i < m
        invariant
            i <= n == left.len(),
            i <= m == right.len(),
            left@ == a@,
            right@ == b@,
            left@.take(i as int) == right@.take(i as int),
        decreases n - i,
    {
        let x = left[i];
        let y = right[i];
        if x != y {
            proof {
                lemma_lex_common_prefix(left@, right@, i as int);
            }
            return x < y;
        }
        assert(left@.take(i + 1) =~= left@.take(i as int).push(x));
        assert(right@.take(i + 1) =~= right@.take(i as int).push(y));
        i += 1;
    }
    proof {
        lemma_lex_common_prefix(left@, right@, i as int);
    }
    i < m
}

/// The character of a decimal digit.
pub open spec fn digit(d: nat) -> char
    recommends
        d < 10,
{
    (0x30 + d) as char
}

/// The decimal numeral of `n`, without leading zeros.
pub open spec fn decimal(n: nat) -> Seq<char>
    decreases n,
{
    if n < 10 {
        seq![digit(n)]
    } else {
        decimal(n / 10).push(digit(n % 10))
    }
}

/// A numeral is never empty, has one digit exactly for the numbers below ten,
/// and holds digits only.
pub proof fn lemma_decimal_shape(n: nat)
    ensures
        decimal(n).len() >= 1,
        decimal(n).len() == 1 <==> n < 10,
        forall|i: int| 0 <= i < decimal(n).len() ==> '0' <= #[trigger] decimal(n)[i] <= '9',
    decreases n,
{
    if n >= 10 {
        lemma_decimal_shape(n / 10);
    }
}

/// Different numbers have different numerals.
pub proof fn lemma_decimal_injective(a: nat, b: nat)
    requires
        decimal(a) == decimal(b),
    ensures
        a == b,
    decreases a,
{
    lemma_decimal_shape(a);
    lemma_decimal_shape(b);
    if a < 10 {
        assert(decimal(a)[0] == digit(a) && decimal(b)[0] == digit(b));
        assert(digit(a) as nat == 0x30 + a && digit(b) as nat == 0x30 + b);
    } else {
        let x = decimal(a / 10);
        let y = decimal(b / 10);
        assert(decimal(a).last() == digit(a % 10) && decimal(b).last() == digit(b % 10));
        assert(digit(a % 10) as nat == 0x30 + a % 10 && digit(b % 10) as nat == 0x30 + b % 10);
        assert(x =~= decimal(a).drop_last());
        assert(y =~= decimal(b).drop_last());
        lemma_decimal_injective(a / 10, b / 10);
    }
}

/// Appends the decimal numeral of `n` to `out`.
pub fn push_decimal(out: &mut String, n: u64)
    ensures
        final(out)@ == old(out)@ + decimal(n as nat),
    decreases n,
{
    if n >= 10 {
        push_decimal(out, n / 10);
    }
    let d: u8 = (n % 10) as u8;
    out.push((0x30 + d) as char);
    assert(out@ =~= old(out)@ + decimal(n as nat));
}

} // verus!
