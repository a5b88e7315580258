//! Recognition of hexadecimal tokens: an optional lowercase `0x` prefix
//! followed by a maximal run of at least two hex digits, delimited by
//! word boundaries.

use vstd::prelude::*;
use crate::text::{hex_digit, is_hex_digit, is_word_char, word_char};

verus! {

/// A word boundary precedes position `i`: start of string, or the
/// previous character is not a word character.
pub open spec fn start_boundary(s: Seq<char>, i: int) -> bool {
    i == 0 || !is_word_char(s[i - 1])
}

/// A word boundary follows position `k`: end of string, or the
/// character there is not a word character.
pub open spec fn end_boundary(s: Seq<char>, k: int) -> bool {
    k == s.len() || !is_word_char(s[k])
}

/// The two-character lowercase prefix `0x` stands at position `i`.
pub open spec fn has_hex_prefix(s: Seq<char>, i: int) -> bool {
    i + 2 <= s.len() && s[i] == '0' && s[i + 1] == 'x'
}

/// Where the digit run of a candidate starting at `i` begins: after the
/// `0x` prefix when there is one, at `i` otherwise.
pub open spec fn token_inner_start(s: Seq<char>, i: int) -> int {
    if has_hex_prefix(s, i) {
        i + 2
    } else {
        i
    }
}

/// Length of the maximal run of hexadecimal digits beginning at `j`.
pub open spec fn hex_run_len(s: Seq<char>, j: int) -> nat
    decreases s.len() - j,
{
    if j < 0 || j >= s.len() || !is_hex_digit(s[j]) {
        0
    } else {
        (1 + hex_run_len(s, j + 1)) as nat
    }
}

/// Where a candidate starting at `i` ends: just past its digit run.
pub open spec fn token_end(s: Seq<char>, i: int) -> int {
    token_inner_start(s, i) + hex_run_len(s, token_inner_start(s, i))
}

/// The recognition rule: a token starts at position `i` when a word
/// boundary precedes it, its maximal digit run (after an optional `0x`
/// prefix) has at least two digits, and a word boundary follows it.
pub open spec fn token_starts_at(s: Seq<char>, i: int) -> bool {
    &&& 0 <= i < s.len()
    &&& start_boundary(s, i)
    &&& hex_run_len(s, token_inner_start(s, i)) >= 2
    &&& end_boundary(s, token_end(s, i))
}

/// A maximal digit run stays inside the string.
pub proof fn lemma_hex_run_in_bounds(s: Seq<char>, j: int)
    requires
        0 <= j <= s.len(),
    ensures
        j + hex_run_len(s, j) <= s.len(),
    decreases s.len() - j,
{
    if j < s.len() && is_hex_digit(s[j]) {
        lemma_hex_run_in_bounds(s, j + 1);
    }
}

/// Every character of a maximal digit run is a hexadecimal digit.
pub proof fn lemma_hex_run_chars(s: Seq<char>, j: int)
    requires
        0 <= j,
    ensures
        forall|p: int| j <= p < j + hex_run_len(s, j) ==> is_hex_digit(s[p]),
    decreases s.len() - j,
{
    if 0 <= j < s.len() && is_hex_digit(s[j]) {
        lemma_hex_run_chars(s, j + 1);
    }
}

/// A recognized token, reported as character offsets into the line:
/// the outer span `[outer_start, end)` covers the whole token, the
/// inner span `[inner_start, end)` only its digits.
pub struct TokenMatch {
    pub outer_start: usize,
    pub inner_start: usize,
    pub end: usize,
}

/// Decide whether a token starts at position `i`, and report its spans.
pub fn token_at(s: &Vec<char>, i: usize) -> (r: Option<TokenMatch>)
    requires
        i < s@.len(),
    ensures
        match r {
            Some(m) => {
                &&& token_starts_at(s@, i as int)
                &&& m.outer_start == i
                &&& m.inner_start == token_inner_start(s@, i as int)
                &&& m.end == token_end(s@, i as int)
                &&& m.inner_start - m.outer_start == 0 || m.inner_start - m.outer_start == 2
                &&& m.end - m.inner_start >= 2
                &&& m.end <= s@.len()
            },
            None => !token_starts_at(s@, i as int),
        },
{
    if i > 0 && word_char(s[i - 1]) {
        return None;
    }
    let n = s.len();
    let js: usize = if i + 1 < n && s[i] == '0' && s[i + 1] == 'x' {
        i + 2
    } else {
        i
    };
    assert(js == token_inner_start(s@, i as int));
    let mut k: usize = js;
    while k < s.len() && hex_digit(s[k])
        invariant
            js <= k <= s@.len(),
            hex_run_len(s@, js as int) == (k - js) + hex_run_len(s@, k as int),
        decreases s@.len() - k,
    {
        k = k + 1;
    }
    assert(hex_run_len(s@, k as int) == 0);
    if k - js < 2 {
        return None;
    }
    if k < s.len() && word_char(s[k]) {
        return None;
    }
    proof {
        lemma_hex_run_in_bounds(s@, js as int);
    }
    Some(TokenMatch { outer_start: i, inner_start: js, end: k })
}

} // verus!
