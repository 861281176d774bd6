//! Whitespace tokenization of command strings.
//!
//! A command string such as `"echo hello"` is split into tokens on runs of
//! ASCII whitespace; the first token is the program, the rest its arguments.

use vstd::prelude::*;
use vstd::string::StrSliceExecFns;

verus! {

/// Characters treated as argument separators: ASCII whitespace.
pub open spec fn is_space(c: char) -> bool {
    c == ' ' || c == '\t' || c == '\n' || c == '\r' || c == '\u{000b}' || c == '\u{000c}'
}

/// Length of the leading run of non-separator characters.
pub open spec fn token_len(s: Seq<char>) -> nat
    decreases s.len(),
{
    if s.len() == 0 || is_space(s[0]) {
        0
    } else {
        1 + token_len(s.drop_first())
    }
}

proof fn lemma_token_len_le(s: Seq<char>)
    ensures
        token_len(s) <= s.len(),
    decreases s.len(),
{
    if s.len() > 0 && !is_space(s[0]) {
        lemma_token_len_le(s.drop_first());
    }
}

/// The maximal-run characterization of `token_len`: if the first `m`
/// characters are non-separators and the run stops at `m`, the token length
/// is exactly `m`.
proof fn lemma_token_len_eq(s: Seq<char>, m: int)
    requires
        0 <= m <= s.len(),
        forall|k: int| 0 <= k < m ==> !is_space(s[k]),
        m == s.len() || is_space(s[m]),
    ensures
        token_len(s) == m,
    decreases s.len(),
{
    if m == 0 {
    } else {
        lemma_token_len_eq(s.drop_first(), m - 1);
    }
}

/// The token sequence of a command string: maximal runs of non-separator
/// characters, in order. Empty input yields no tokens.
pub open spec fn tokenize(s: Seq<char>) -> Seq<Seq<char>>
    decreases s.len(),
    via tokenize_decreases
{
    if s.len() == 0 {
        Seq::empty()
    } else if is_space(s[0]) {
        tokenize(s.drop_first())
    } else {
        seq![s.take(token_len(s) as int)] + tokenize(s.skip(token_len(s) as int))
    }
}

#[via_fn]
proof fn tokenize_decreases(s: Seq<char>) {
    if s.len() > 0 && !is_space(s[0]) {
        lemma_token_len_le(s);
    }
}

/// Exec check for `is_space`.
pub fn is_space_char(c: char) -> (r: bool)
    ensures
        r == is_space(c),
{
    c == ' ' || c == '\t' || c == '\n' || c == '\r' || c == '\u{000b}' || c == '\u{000c}'
}

/// Character-wise string comparison, so task names can be compared without
/// assuming anything about `str` equality.
pub fn str_eq(a: &str, b: &str) -> (r: bool)
    ensures
        r == (a@ == b@),
{
    let na = a.unicode_len();
    let nb = b.unicode_len();
    if na != nb {
        return false;
    }
    let mut i: usize = 0;
    while i < na
        invariant
            i <= na,
            na == a@.len(),
            na == b@.len(),
            forall|k: int| 0 <= k < i ==> a@[k] == b@[k],
        decreases na - i,
    {
        if a.get_char(i) != b.get_char(i) {
            return false;
        }
        i = i + 1;
    }
    proof {
        assert(a@ =~= b@);
    }
    true
}

/// Splitting after a leading separator drops that separator.
proof fn lemma_tokenize_space(s: Seq<char>)
    requires
        s.len() > 0,
        is_space(s[0]),
    ensures
        tokenize(s) == tokenize(s.drop_first()),
{
}

/// Splitting at the head of a token peels off exactly that token.
proof fn lemma_tokenize_token(s: Seq<char>, m: int)
    requires
        0 < m <= s.len(),
        forall|k: int| 0 <= k < m ==> !is_space(s[k]),
        m == s.len() || is_space(s[m]),
    ensures
        tokenize(s) == seq![s.take(m)] + tokenize(s.skip(m)),
{
    lemma_token_len_eq(s, m);
}

/// Splits a string into its whitespace-delimited tokens.
pub fn split_tokens(s: &str) -> (r: Vec<String>)
    ensures
        r.deep_view() == tokenize(s@),
{
    let n = s.unicode_len();
    let mut r: Vec<String> = Vec::new();
    let mut i: usize = 0;
    proof {
        assert(s@.skip(0) =~= s@);
        assert(r.deep_view() + tokenize(s@) =~= tokenize(s@));
    }
    while i < n
        invariant
            i <= n,
            n == s@.len(),
            tokenize(s@) == r.deep_view() + tokenize(s@.skip(i as int)),
        decreases n - i,
    {
        if is_space_char(s.get_char(i)) {
            proof {
                lemma_tokenize_space(s@.skip(i as int));
                assert(s@.skip(i as int).drop_first() =~= s@.skip(i + 1));
            }
            i = i + 1;
        } else {
            let start: usize = i;
            let mut j: usize = i;
            while j < n && !is_space_char(s.get_char(j))
                invariant
                    start <= j <= n,
                    n == s@.len(),
                    forall|k: int| start <= k < j ==> !is_space(s@[k]),
                decreases n - j,
            {
                j = j + 1;
            }
            let token = s.substring_char(start, j).to_owned();
            let ghost pre = r.deep_view();
            proof {
                let rest = s@.skip(start as int);
                lemma_tokenize_token(rest, j - start);
                assert(rest.take(j - start) =~= s@.subrange(start as int, j as int));
                assert(rest.skip(j - start) =~= s@.skip(j as int));
            }
            r.push(token);
            proof {
                assert(r.deep_view() =~= pre.push(s@.subrange(start as int, j as int)));
            }
            i = j;
        }
    }
    proof {
        assert(s@.skip(n as int) =~= Seq::<char>::empty());
        assert(r.deep_view() + tokenize(s@.skip(n as int)) =~= r.deep_view());
    }
    r
}

} // verus!
