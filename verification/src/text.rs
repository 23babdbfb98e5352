//! Character-level utilities: whitespace classification, prefix and substring
//! tests, and whitespace tokenization of a line.

use vstd::prelude::*;

verus! {

/// Whitespace for the purpose of splitting a directive line into tokens:
/// the ASCII blank characters that can occur inside a line of text.
pub open spec fn is_space(c: char) -> bool {
    c == ' ' || c == '\t' || c == '\n' || c == '\r' || c == '\x0b' || c == '\x0c'
}

/// Executable mirror of `is_space`.
pub fn is_space_char(c: char) -> (r: bool)
    ensures
        r == is_space(c),
{
    c == ' ' || c == '\t' || c == '\n' || c == '\r' || c == '\x0b' || c == '\x0c'
}

/// `p` is a prefix of `s`.
pub open spec fn starts_with(s: Seq<char>, p: Seq<char>) -> bool {
    p.len() <= s.len() && s.subrange(0, p.len() as int) == p
}

/// Executable prefix test, character by character.
pub fn str_starts_with(s: &str, p: &str) -> (r: bool)
    ensures
        r == starts_with(s@, p@),
{
    let n = s.unicode_len();
    let m = p.unicode_len();
    if m > n {
        return false;
    }
    let mut i: usize = 0;
    while i < m
        invariant
            i <= m <= n,
            n == s@.len(),
            m == p@.len(),
            forall|j: int| 0 <= j < i ==> s@[j] == p@[j],
        decreases m - i,
    {
        if s.get_char(i) != p.get_char(i) {
            assert(s@.subrange(0, p@.len() as int)[i as int] != p@[i as int]);
            return false;
        }
        i += 1;
    }
    assert(s@.subrange(0, p@.len() as int) =~= p@);
    true
}

/// `p` occurs in `s` as a contiguous substring.
pub open spec fn contains_seq(s: Seq<char>, p: Seq<char>) -> bool {
    exists|k: int|
        0 <= k && k + p.len() <= s.len() && #[trigger] s.subrange(k, k + p.len() as int) == p
}

/// Whether `p` occurs in `s` starting exactly at index `k`.
fn matches_at(s: &str, p: &str, k: usize) -> (r: bool)
    requires
        k + p@.len() <= s@.len(),
    ensures
        r == (s@.subrange(k as int, k + p@.len() as int) == p@),
{
    let n = s.unicode_len();
    let m = p.unicode_len();
    let mut i: usize = 0;
    while i < m
        invariant
            i <= m,
            n == s@.len(),
            m == p@.len(),
            k + m <= n,
            forall|j: int| 0 <= j < i ==> s@[k + j] == p@[j],
        decreases m - i,
    {
        if s.get_char(k + i) != p.get_char(i) {
            assert(s@.subrange(k as int, k + p@.len() as int)[i as int] != p@[i as int]);
            return false;
        }
        i += 1;
    }
    assert(s@.subrange(k as int, k + p@.len() as int) =~= p@);
    true
}

/// Executable substring search (naive scan over every start position).
pub fn str_contains_str(s: &str, p: &str) -> (r: bool)
    ensures
        r == contains_seq(s@, p@),
{
    let n = s.unicode_len();
    let m = p.unicode_len();
    if m > n {
        return false;
    }
    if m == 0 {
        assert(s@.subrange(0, 0 + p@.len() as int) =~= p@);
        return true;
    }
    let mut k: usize = 0;
    while k <= n - m
        invariant
            0 < m <= n,
            n == s@.len(),
            m == p@.len(),
            k <= n - m + 1,
            forall|j: int| 0 <= j < k ==> #[trigger] s@.subrange(j, j + p@.len() as int) != p@,
        decreases n - k,
    {
        if matches_at(s, p, k) {
            assert(contains_seq(s@, p@));
            return true;
        }
        k += 1;
    }
    false
}

/// A well-formed token: nonempty and free of whitespace.
pub open spec fn wf_token(t: Seq<char>) -> bool {
    t.len() > 0 && forall|j: int| 0 <= j < t.len() ==> !is_space(#[trigger] t[j])
}

/// Length of the leading run of non-whitespace characters of `s`.
pub open spec fn token_len(s: Seq<char>) -> nat
    decreases s.len(),
{
    if s.len() == 0 || is_space(s[0]) {
        0
    } else {
        1 + token_len(s.drop_first())
    }
}

pub proof fn lemma_token_len_le(s: Seq<char>)
    ensures
        token_len(s) <= s.len(),
    decreases s.len(),
{
    if s.len() != 0 && !is_space(s[0]) {
        lemma_token_len_le(s.drop_first());
    }
}

/// The leading token runs up to the first whitespace character (or the end).
pub proof fn lemma_token_len_chars(s: Seq<char>)
    ensures
        token_len(s) <= s.len(),
        forall|j: int| 0 <= j < token_len(s) ==> !is_space(#[trigger] s[j]),
        token_len(s) < s.len() ==> is_space(s[token_len(s) as int]),
    decreases s.len(),
{
    lemma_token_len_le(s);
    if s.len() != 0 && !is_space(s[0]) {
        lemma_token_len_chars(s.drop_first());
        assert forall|j: int| 0 <= j < token_len(s) implies !is_space(#[trigger] s[j]) by {
            if j > 0 {
                assert(s.drop_first()[j - 1] == s[j]);
            }
        }
        if token_len(s) < s.len() {
            assert(s.drop_first()[token_len(s) - 1] == s[token_len(s) as int]);
        }
    }
}

/// `token_len` is pinned by its characterization: if the first `k` characters
/// are non-whitespace and position `k` is whitespace or the end, the leading
/// token has length exactly `k`.
pub proof fn lemma_token_len_at(s: Seq<char>, k: int)
    requires
        0 <= k <= s.len(),
        forall|j: int| 0 <= j < k ==> !is_space(#[trigger] s[j]),
        k == s.len() || is_space(s[k]),
    ensures
        token_len(s) == k,
    decreases k,
{
    if k == 0 {
    } else {
        assert(!is_space(s[0]));
        assert forall|j: int| 0 <= j < k - 1 implies !is_space(#[trigger] s.drop_first()[j]) by {
            assert(s.drop_first()[j] == s[j + 1]);
        }
        if k - 1 < s.drop_first().len() {
            assert(s.drop_first()[k - 1] == s[k]);
        }
        lemma_token_len_at(s.drop_first(), k - 1);
    }
}

/// The whitespace-separated tokens of `s`, in order.
pub open spec fn tokens_of(s: Seq<char>) -> Seq<Seq<char>>
    decreases s.len(),
    via tokens_of_dec
{
    if s.len() == 0 {
        Seq::empty()
    } else if is_space(s[0]) {
        tokens_of(s.drop_first())
    } else {
        seq![s.take(token_len(s) as int)] + tokens_of(s.skip(token_len(s) as int))
    }
}

#[via_fn]
proof fn tokens_of_dec(s: Seq<char>) {
    if s.len() != 0 && !is_space(s[0]) {
        lemma_token_len_le(s);
    }
}

/// Every token produced by `tokens_of` is nonempty and whitespace-free.
pub proof fn lemma_tokens_wf(s: Seq<char>)
    ensures
        forall|k: int| 0 <= k < tokens_of(s).len() ==> wf_token(#[trigger] tokens_of(s)[k]),
    decreases s.len(),
{
    if s.len() == 0 {
    } else if is_space(s[0]) {
        lemma_tokens_wf(s.drop_first());
        assert forall|k: int| 0 <= k < tokens_of(s).len() implies wf_token(
            #[trigger] tokens_of(s)[k],
        ) by {
            assert(tokens_of(s)[k] == tokens_of(s.drop_first())[k]);
        }
    } else {
        lemma_token_len_chars(s);
        lemma_tokens_wf(s.skip(token_len(s) as int));
        let tl = token_len(s) as int;
        assert forall|j: int| 0 <= j < tl implies !is_space(#[trigger] s.take(tl)[j]) by {
            assert(s.take(tl)[j] == s[j]);
        }
        assert(wf_token(s.take(tl)));
        assert forall|k: int| 0 <= k < tokens_of(s).len() implies wf_token(
            #[trigger] tokens_of(s)[k],
        ) by {
            if k > 0 {
                assert(tokens_of(s)[k] == tokens_of(s.skip(tl))[k - 1]);
            } else {
                assert(tokens_of(s)[0] == s.take(tl));
            }
        }
    }
}

/// Prepending a whitespace-free, nonempty token (followed by whitespace or
/// the end) contributes exactly that token to the front of the token list.
pub proof fn lemma_tokens_of_prefix_token(p: Seq<char>, s: Seq<char>)
    requires
        wf_token(p),
        s.len() == 0 || is_space(s[0]),
    ensures
        tokens_of(p + s) == seq![p] + tokens_of(s),
{
    let w = p + s;
    assert forall|j: int| 0 <= j < p.len() implies !is_space(#[trigger] w[j]) by {
        assert(w[j] == p[j]);
    }
    if p.len() < w.len() {
        assert(w[p.len() as int] == s[0]);
    }
    lemma_token_len_at(w, p.len() as int);
    assert(w.take(p.len() as int) =~= p);
    assert(w.skip(p.len() as int) =~= s);
    assert(!is_space(w[0]));
}

/// A leading whitespace character never changes the token list.
pub proof fn lemma_tokens_of_space_prefix(s: Seq<char>)
    ensures
        tokens_of(seq![' '] + s) == tokens_of(s),
{
    let w = seq![' '] + s;
    assert(is_space(w[0]));
    assert(w.drop_first() =~= s);
}

/// First whitespace position at or after `from` (or the end of `s`).
fn token_end_from(s: &str, from: usize) -> (j: usize)
    requires
        from < s@.len(),
        !is_space(s@[from as int]),
    ensures
        from < j <= s@.len(),
        forall|l: int| from <= l < j ==> !is_space(#[trigger] s@[l]),
        j < s@.len() ==> is_space(s@[j as int]),
        token_len(s@.skip(from as int)) == j - from,
{
    let n = s.unicode_len();
    let mut j: usize = from;
    while j < n
        invariant
            from <= j <= n,
            n == s@.len(),
            from < n,
            !is_space(s@[from as int]),
            forall|l: int| from <= l < j ==> !is_space(#[trigger] s@[l]),
        decreases n - j,
    {
        if is_space_char(s.get_char(j)) {
            proof {
                let t = s@.skip(from as int);
                assert forall|l: int| 0 <= l < j - from implies !is_space(#[trigger] t[l]) by {
                    assert(t[l] == s@[from + l]);
                }
                assert(t[j - from] == s@[j as int]);
                lemma_token_len_at(t, j - from);
            }
            return j;
        }
        j += 1;
    }
    proof {
        let t = s@.skip(from as int);
        assert forall|l: int| 0 <= l < n - from implies !is_space(#[trigger] t[l]) by {
            assert(t[l] == s@[from + l]);
        }
        lemma_token_len_at(t, n - from);
    }
    n
}

/// Splits `s` into its whitespace-separated tokens.
pub fn split_tokens(s: &str) -> (r: Vec<String>)
    ensures
        r.deep_view() == tokens_of(s@),
{
    let n = s.unicode_len();
    let mut r: Vec<String> = Vec::new();
    let mut i: usize = 0;
    proof {
        assert(r.deep_view() =~= Seq::<Seq<char>>::empty());
        assert(s@.skip(0) =~= s@);
        assert(r.deep_view() + tokens_of(s@) =~= tokens_of(s@));
    }
    while i < n
        invariant
            i <= n,
            n == s@.len(),
            tokens_of(s@) == r.deep_view() + tokens_of(s@.skip(i as int)),
        decreases n - i,
    {
        if is_space_char(s.get_char(i)) {
            proof {
                assert(s@.skip(i as int).drop_first() =~= s@.skip(i + 1));
                assert(tokens_of(s@.skip(i as int)) == tokens_of(s@.skip(i + 1)));
            }
            i += 1;
        } else {
            let j = token_end_from(s, i);
            let tok = s.substring_char(i, j);
            let ghost old_r = r.deep_view();
            r.push(String::from_str(tok));
            proof {
                let t = s@.skip(i as int);
                assert(t.take(token_len(t) as int) =~= s@.subrange(i as int, j as int));
                assert(t.skip(token_len(t) as int) =~= s@.skip(j as int));
                assert(tokens_of(t) == seq![tok@] + tokens_of(s@.skip(j as int)));
                assert(r.deep_view() =~= old_r + seq![tok@]);
                assert(r.deep_view() + tokens_of(s@.skip(j as int)) =~= old_r + tokens_of(t));
            }
            i = j;
        }
    }
    proof {
        assert(s@.skip(n as int) =~= Seq::<char>::empty());
        assert(r.deep_view() =~= r.deep_view() + tokens_of(s@.skip(n as int)));
    }
    r
}

} // verus!
