//! The line transformer: every recognized hexadecimal token is replaced
//! by its decimal value, right-justified in a field as wide as the
//! token; everything else passes through unchanged.

use vstd::prelude::*;
use crate::matcher::{
    has_hex_prefix, hex_run_len, lemma_hex_run_chars, lemma_hex_run_in_bounds, token_at,
    token_end, token_inner_start, token_starts_at,
};
use crate::numeral::{
    dec_chars, dec_str, hex_val, lemma_hex_val_bound, lemma_padded_dec_len, lemma_pow16_32,
    lemma_pow16_le, pad_field, padded_dec, parse_hex_u128, u128_count,
};
use crate::text::{chars_to_string, is_hex_digit, is_word_char, str_to_chars};

verus! {

/// The digits of the token starting at `i`.
pub open spec fn token_inner_seq(s: Seq<char>, i: int) -> Seq<char> {
    s.subrange(token_inner_start(s, i), token_end(s, i))
}

/// The rewriting of `s` from scan position `i` on: characters at
/// non-token positions pass through; each token becomes its decimal
/// value padded to the token's width. A token whose value does not fit
/// in 128 bits passes through unchanged when `skip` is set, and
/// otherwise fails the whole rewrite, reporting the token's digits.
pub open spec fn rewrite_from(s: Seq<char>, i: int, skip: bool) -> Result<Seq<char>, Seq<char>>
    decreases s.len() - i,
    via rewrite_from_decreases
{
    if i < 0 || i >= s.len() {
        Ok(Seq::empty())
    } else if token_starts_at(s, i) {
        let inner = token_inner_seq(s, i);
        let k = token_end(s, i);
        if hex_val(inner) < u128_count() {
            match rewrite_from(s, k, skip) {
                Ok(rest) => Ok(padded_dec(hex_val(inner), (k - i) as nat) + rest),
                Err(e) => Err(e),
            }
        } else if skip {
            match rewrite_from(s, k, skip) {
                Ok(rest) => Ok(s.subrange(i, k) + rest),
                Err(e) => Err(e),
            }
        } else {
            Err(inner)
        }
    } else {
        match rewrite_from(s, i + 1, skip) {
            Ok(rest) => Ok(seq![s[i]] + rest),
            Err(e) => Err(e),
        }
    }
}

#[via_fn]
proof fn rewrite_from_decreases(s: Seq<char>, i: int, skip: bool) {
    if 0 <= i < s.len() && token_starts_at(s, i) {
        lemma_hex_run_in_bounds(s, token_inner_start(s, i));
    }
}

/// What [`hex2dec_line`] returns: the whole line rewritten, or the
/// digits of the first token whose value does not fit in 128 bits.
pub open spec fn spec_hex2dec(s: Seq<char>, skip: bool) -> Result<Seq<char>, Seq<char>> {
    rewrite_from(s, 0, skip)
}

/// A token's hexadecimal value does not fit in a 128-bit integer.
/// `digits` holds the offending token's digit run.
#[derive(Debug)]
pub struct ParseOverflow {
    pub digits: String,
}

/// Rewrite a line of characters, as [`rewrite_from`] from position 0.
pub fn transform_chars(s: &Vec<char>, skip: bool) -> (r: Result<Vec<char>, Vec<char>>)
    ensures
        (r matches Ok(out) ==> spec_hex2dec(s@, skip) == Ok::<Seq<char>, Seq<char>>(out@)),
        (r matches Err(d) ==> spec_hex2dec(s@, skip) == Err::<Seq<char>, Seq<char>>(d@)),
{
    let n = s.len();
    let mut out: Vec<char> = Vec::new();
    let mut i: usize = 0;
    proof {
        if let Ok(rest) = rewrite_from(s@, 0, skip) {
            assert(out@ + rest =~= rest);
        }
    }
    while i < n
        invariant
            n == s@.len(),
            i <= n,
            (rewrite_from(s@, i as int, skip) matches Ok(rest) ==> rewrite_from(s@, 0, skip)
                == Ok::<Seq<char>, Seq<char>>(out@ + rest)),
            (rewrite_from(s@, i as int, skip) matches Err(e) ==> rewrite_from(s@, 0, skip)
                == Err::<Seq<char>, Seq<char>>(e)),
        decreases n - i,
    {
        let ghost i0: int = i as int;
        let ghost pre_out: Seq<char> = out@;
        match token_at(s, i) {
            None => {
                out.push(s[i]);
                i = i + 1;
                proof {
                    match rewrite_from(s@, i as int, skip) {
                        Ok(r2) => {
                            assert(rewrite_from(s@, i0, skip) == Ok::<Seq<char>, Seq<char>>(
                                seq![s@[i0]] + r2,
                            ));
                            assert(pre_out + (seq![s@[i0]] + r2) =~= out@ + r2);
                        },
                        Err(_) => {},
                    }
                }
            },
            Some(m) => {
                proof {
                    lemma_hex_run_in_bounds(s@, m.inner_start as int);
                    lemma_hex_run_chars(s@, m.inner_start as int);
                }
                let mut inner: Vec<char> = Vec::new();
                let mut p: usize = m.inner_start;
                proof {
                    assert(inner@ =~= s@.subrange(m.inner_start as int, p as int));
                }
                while p < m.end
                    invariant
                        m.inner_start <= p <= m.end <= s@.len(),
                        inner@ == s@.subrange(m.inner_start as int, p as int),
                    decreases m.end - p,
                {
                    inner.push(s[p]);
                    p = p + 1;
                    proof {
                        assert(inner@ =~= s@.subrange(m.inner_start as int, p as int));
                    }
                }
                proof {
                    assert(inner@ == token_inner_seq(s@, i0));
                    assert(forall|q: int| 0 <= q < inner@.len()
                        ==> is_hex_digit(#[trigger] inner@[q]));
                }
                match parse_hex_u128(&inner) {
                    Some(v) => {
                        let dv = dec_chars(v);
                        let width = m.end - m.outer_start;
                        let mut piece = pad_field(dv, width);
                        let ghost piece_seq: Seq<char> = piece@;
                        proof {
                            assert(piece_seq == padded_dec(hex_val(token_inner_seq(s@, i0)),
                                (token_end(s@, i0) - i0) as nat));
                        }
                        out.append(&mut piece);
                        i = m.end;
                        proof {
                            match rewrite_from(s@, i as int, skip) {
                                Ok(r2) => {
                                    assert(rewrite_from(s@, i0, skip) == Ok::<
                                        Seq<char>,
                                        Seq<char>,
                                    >(piece_seq + r2));
                                    assert(pre_out + (piece_seq + r2) =~= out@ + r2);
                                },
                                Err(_) => {},
                            }
                        }
                    },
                    None => {
                        if skip {
                            let mut p2: usize = m.outer_start;
                            proof {
                                assert(out@ =~= pre_out + s@.subrange(i0, p2 as int));
                            }
                            while p2 < m.end
                                invariant
                                    i0 == m.outer_start,
                                    m.outer_start <= p2 <= m.end <= s@.len(),
                                    out@ == pre_out + s@.subrange(i0, p2 as int),
                                decreases m.end - p2,
                            {
                                out.push(s[p2]);
                                p2 = p2 + 1;
                                proof {
                                    assert(out@ =~= pre_out + s@.subrange(i0, p2 as int));
                                }
                            }
                            i = m.end;
                            proof {
                                match rewrite_from(s@, i as int, skip) {
                                    Ok(r2) => {
                                        assert(rewrite_from(s@, i0, skip) == Ok::<
                                            Seq<char>,
                                            Seq<char>,
                                        >(s@.subrange(i0, token_end(s@, i0)) + r2));
                                        assert(pre_out + (s@.subrange(i0, token_end(s@, i0)) + r2)
                                            =~= out@ + r2);
                                    },
                                    Err(_) => {},
                                }
                            }
                        } else {
                            proof {
                                assert(rewrite_from(s@, i0, skip) == Err::<Seq<char>, Seq<char>>(
                                    token_inner_seq(s@, i0),
                                ));
                            }
                            return Err(inner);
                        }
                    },
                }
            },
        }
    }
    proof {
        assert(rewrite_from(s@, n as int, skip) == Ok::<Seq<char>, Seq<char>>(Seq::empty()));
        assert(out@ + Seq::<char>::empty() =~= out@);
    }
    Ok(out)
}

/// Rewrite one line: every recognized hexadecimal token becomes its
/// decimal value right-justified in a field as wide as the token, and
/// all other characters pass through unchanged. A token whose value
/// does not fit in 128 bits is left in place when `skip_error` is set,
/// and otherwise fails the call, reporting the token's digits.
pub fn hex2dec_line(line: &str, skip_error: bool) -> (r: Result<String, ParseOverflow>)
    ensures
        (r matches Ok(out) ==> spec_hex2dec(line@, skip_error) == Ok::<Seq<char>, Seq<char>>(
            out@,
        )),
        (r matches Err(e) ==> spec_hex2dec(line@, skip_error) == Err::<Seq<char>, Seq<char>>(
            e.digits@,
        )),
        skip_error ==> r is Ok,
{
    let chars = str_to_chars(line);
    proof {
        lemma_rewrite_skip_total(line@, 0);
    }
    match transform_chars(&chars, skip_error) {
        Ok(out) => Ok(chars_to_string(&out)),
        Err(d) => Err(ParseOverflow { digits: chars_to_string(&d) }),
    }
}

/// No position of the tail from `i` starts a token, so the tail passes
/// through unchanged.
pub proof fn lemma_rewrite_no_token(s: Seq<char>, i: int, skip: bool)
    requires
        0 <= i <= s.len(),
        forall|p: int| i <= p < s.len() ==> !token_starts_at(s, p),
    ensures
        rewrite_from(s, i, skip) == Ok::<Seq<char>, Seq<char>>(s.subrange(i, s.len() as int)),
    decreases s.len() - i,
{
    if i == s.len() {
        assert(s.subrange(i, s.len() as int) =~= Seq::empty());
    } else {
        lemma_rewrite_no_token(s, i + 1, skip);
        assert(seq![s[i]] + s.subrange(i + 1, s.len() as int) =~= s.subrange(i, s.len() as int));
    }
}

/// Pass-through: an input in which no token satisfies the recognition
/// rule is rewritten to itself, whatever the error policy.
pub proof fn lemma_pass_through(s: Seq<char>, skip: bool)
    requires
        forall|p: int| 0 <= p < s.len() ==> !token_starts_at(s, p),
    ensures
        spec_hex2dec(s, skip) == Ok::<Seq<char>, Seq<char>>(s),
{
    lemma_rewrite_no_token(s, 0, skip);
    assert(s.subrange(0, s.len() as int) =~= s);
}

/// With the skip policy the rewrite always succeeds.
pub proof fn lemma_rewrite_skip_total(s: Seq<char>, i: int)
    requires
        0 <= i <= s.len(),
    ensures
        rewrite_from(s, i, true) is Ok,
    decreases s.len() - i,
{
    if i < s.len() {
        if token_starts_at(s, i) {
            lemma_hex_run_in_bounds(s, token_inner_start(s, i));
            lemma_rewrite_skip_total(s, token_end(s, i));
        } else {
            lemma_rewrite_skip_total(s, i + 1);
        }
    }
}

/// Skip-error safety: with `skip` set, the whole-line rewrite never
/// fails.
pub proof fn lemma_skip_never_fails(s: Seq<char>)
    ensures
        spec_hex2dec(s, true) is Ok,
{
    lemma_rewrite_skip_total(s, 0);
}

/// A successful rewrite of the tail from `i` is at least as long as
/// that tail: replacements never shrink their field.
pub proof fn lemma_rewrite_len(s: Seq<char>, i: int, skip: bool)
    requires
        0 <= i <= s.len(),
    ensures
        rewrite_from(s, i, skip) matches Ok(r) ==> r.len() >= s.len() - i,
    decreases s.len() - i,
{
    if i < s.len() {
        if token_starts_at(s, i) {
            let k = token_end(s, i);
            lemma_hex_run_in_bounds(s, token_inner_start(s, i));
            lemma_rewrite_len(s, k, skip);
            lemma_padded_dec_len(hex_val(token_inner_seq(s, i)), (k - i) as nat);
        } else {
            lemma_rewrite_len(s, i + 1, skip);
        }
    }
}

/// Length monotonicity: a successful rewrite is never shorter than its
/// input.
pub proof fn lemma_length_monotone(s: Seq<char>, skip: bool)
    ensures
        spec_hex2dec(s, skip) matches Ok(t) ==> t.len() >= s.len(),
{
    lemma_rewrite_len(s, 0, skip);
}

/// Every token's decimal rendering fits in its field.
pub open spec fn renderings_fit(s: Seq<char>) -> bool {
    forall|p: int|
        token_starts_at(s, p) ==> dec_str(hex_val(token_inner_seq(s, p))).len() <= token_end(s, p)
            - p
}

/// When every decimal rendering fits in its field, a successful
/// rewrite keeps the tail's exact length.
pub proof fn lemma_rewrite_len_eq(s: Seq<char>, i: int, skip: bool)
    requires
        0 <= i <= s.len(),
        renderings_fit(s),
    ensures
        rewrite_from(s, i, skip) matches Ok(r) ==> r.len() == s.len() - i,
    decreases s.len() - i,
{
    if i < s.len() {
        if token_starts_at(s, i) {
            let k = token_end(s, i);
            lemma_hex_run_in_bounds(s, token_inner_start(s, i));
            lemma_rewrite_len_eq(s, k, skip);
        } else {
            lemma_rewrite_len_eq(s, i + 1, skip);
        }
    }
}

/// Length equality: when every token's decimal rendering fits in its
/// field, a successful rewrite has exactly the input's length.
pub proof fn lemma_length_equality(s: Seq<char>, skip: bool)
    requires
        renderings_fit(s),
    ensures
        spec_hex2dec(s, skip) matches Ok(t) ==> t.len() == s.len(),
{
    lemma_rewrite_len_eq(s, 0, skip);
}

/// A trailing region of non-word characters passes through a
/// successful rewrite unchanged, and stays at the very end.
pub proof fn lemma_rewrite_tail(s: Seq<char>, i: int, m: int, skip: bool)
    requires
        0 <= i <= m <= s.len(),
        forall|p: int| m <= p < s.len() ==> !is_word_char(#[trigger] s[p]),
    ensures
        rewrite_from(s, i, skip) matches Ok(r) ==> r.len() >= s.len() - m && r.subrange(
            r.len() - (s.len() - m),
            r.len() as int,
        ) == s.subrange(m, s.len() as int),
    decreases s.len() - i,
{
    if i == m {
        assert forall|p: int| i <= p < s.len() implies !token_starts_at(s, p) by {
            if token_starts_at(s, p) {
                if has_hex_prefix(s, p) {
                    assert(s[p] == '0');
                } else {
                    assert(hex_run_len(s, p) >= 2);
                    assert(is_hex_digit(s[p]));
                }
                assert(is_word_char(s[p]));
            }
        }
        lemma_rewrite_no_token(s, i, skip);
        let r = s.subrange(i, s.len() as int);
        assert(r.subrange(r.len() - (s.len() - m), r.len() as int) =~= s.subrange(
            m,
            s.len() as int,
        ));
    } else if token_starts_at(s, i) {
        let js = token_inner_start(s, i);
        let k = token_end(s, i);
        lemma_hex_run_in_bounds(s, js);
        lemma_hex_run_chars(s, js);
        assert(k <= m) by {
            if k > m {
                if m < js {
                    assert(s[m] == '0' || s[m] == 'x');
                } else {
                    assert(is_hex_digit(s[m]));
                }
                assert(is_word_char(s[m]));
            }
        }
        lemma_rewrite_tail(s, k, m, skip);
        match rewrite_from(s, k, skip) {
            Ok(rest) => {
                let tail_len = s.len() - m;
                if hex_val(token_inner_seq(s, i)) < u128_count() {
                    let r = padded_dec(hex_val(token_inner_seq(s, i)), (k - i) as nat) + rest;
                    assert(r.subrange(r.len() - tail_len, r.len() as int) =~= rest.subrange(
                        rest.len() - tail_len,
                        rest.len() as int,
                    ));
                } else if skip {
                    let r = s.subrange(i, k) + rest;
                    assert(r.subrange(r.len() - tail_len, r.len() as int) =~= rest.subrange(
                        rest.len() - tail_len,
                        rest.len() as int,
                    ));
                }
            },
            Err(_) => {},
        }
    } else {
        lemma_rewrite_tail(s, i + 1, m, skip);
        match rewrite_from(s, i + 1, skip) {
            Ok(rest) => {
                let tail_len = s.len() - m;
                let r = seq![s[i]] + rest;
                assert(r.subrange(r.len() - tail_len, r.len() as int) =~= rest.subrange(
                    rest.len() - tail_len,
                    rest.len() as int,
                ));
            },
            Err(_) => {},
        }
    }
}

/// Newline preservation: an input ending in a line feed is rewritten
/// to a line ending in the same line feed.
pub proof fn lemma_newline_preserved(s: Seq<char>, t: Seq<char>, skip: bool)
    requires
        s.len() > 0,
        s.last() == '\n',
        spec_hex2dec(s, skip) == Ok::<Seq<char>, Seq<char>>(t),
    ensures
        t.len() > 0,
        t.last() == '\n',
{
    lemma_rewrite_tail(s, 0, s.len() - 1, skip);
    assert(t.subrange(t.len() - 1, t.len() as int)[0] == s.subrange(s.len() - 1, s.len() as int)[0]);
}

/// Newline preservation: an input ending in a carriage return and line
/// feed is rewritten to a line ending in the same two characters.
pub proof fn lemma_crlf_preserved(s: Seq<char>, t: Seq<char>, skip: bool)
    requires
        s.len() >= 2,
        s[s.len() - 2] == '\r',
        s.last() == '\n',
        spec_hex2dec(s, skip) == Ok::<Seq<char>, Seq<char>>(t),
    ensures
        t.len() >= 2,
        t[t.len() - 2] == '\r',
        t.last() == '\n',
{
    lemma_rewrite_tail(s, 0, s.len() - 2, skip);
    assert(t.subrange(t.len() - 2, t.len() as int)[0] == s.subrange(s.len() - 2, s.len() as int)[0]);
    assert(t.subrange(t.len() - 2, t.len() as int)[1] == s.subrange(s.len() - 2, s.len() as int)[1]);
}

/// A rewrite of the tail from `i` succeeds when every token's digit
/// run has at most thirty-two digits.
pub proof fn lemma_rewrite_short_tokens(s: Seq<char>, i: int)
    requires
        0 <= i <= s.len(),
        forall|p: int| #[trigger] token_starts_at(s, p) ==> token_end(s, p) - token_inner_start(
            s,
            p,
        ) <= 32,
    ensures
        rewrite_from(s, i, false) is Ok,
    decreases s.len() - i,
{
    if i < s.len() {
        if token_starts_at(s, i) {
            let js = token_inner_start(s, i);
            let k = token_end(s, i);
            lemma_hex_run_in_bounds(s, js);
            lemma_hex_run_chars(s, js);
            let inner = token_inner_seq(s, i);
            assert forall|q: int| 0 <= q < inner.len() implies is_hex_digit(
                #[trigger] inner[q],
            ) by {
                assert(inner[q] == s[js + q]);
                assert(is_hex_digit(s[js + q]));
            }
            lemma_hex_val_bound(inner);
            lemma_pow16_le(inner.len(), 32);
            lemma_pow16_32();
            assert(hex_val(inner) < u128_count());
            lemma_rewrite_short_tokens(s, k);
        } else {
            lemma_rewrite_short_tokens(s, i + 1);
        }
    }
}

/// Overflow threshold: when every token's digit run has at most
/// thirty-two digits, the rewrite never reports an overflow.
pub proof fn lemma_overflow_threshold(s: Seq<char>)
    requires
        forall|p: int| #[trigger] token_starts_at(s, p) ==> token_end(s, p) - token_inner_start(
            s,
            p,
        ) <= 32,
    ensures
        spec_hex2dec(s, false) is Ok,
{
    lemma_rewrite_short_tokens(s, 0);
}

/// Idempotence: when the result of a first rewrite contains no token
/// satisfying the recognition rule, a second rewrite (under the skip
/// policy) leaves it unchanged.
pub proof fn lemma_idempotent(s: Seq<char>, t: Seq<char>)
    requires
        spec_hex2dec(s, true) == Ok::<Seq<char>, Seq<char>>(t),
        forall|p: int| 0 <= p < t.len() ==> !token_starts_at(t, p),
    ensures
        spec_hex2dec(t, true) == Ok::<Seq<char>, Seq<char>>(t),
{
    lemma_pass_through(t, true);
}

} // verus!
