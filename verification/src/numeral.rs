//! Values of hexadecimal digit runs, decimal rendering, and field
//! padding.

use vstd::prelude::*;
use crate::text::{hex_digit_val, hex_digit_value, is_hex_digit};

verus! {

/// Number of distinct values of a 128-bit unsigned integer.
pub open spec fn u128_count() -> nat {
    0x100000000000000000000000000000000nat
}

/// Value of a run of hexadecimal digits, most significant digit first.
pub open spec fn hex_val(s: Seq<char>) -> nat
    decreases s.len(),
{
    if s.len() == 0 {
        0
    } else {
        hex_val(s.drop_last()) * 16 + hex_digit_val(s.last())
    }
}

/// Sixteen to the power `n`.
pub open spec fn pow16(n: nat) -> nat
    decreases n,
{
    if n == 0 {
        1
    } else {
        16 * pow16((n - 1) as nat)
    }
}

/// A run of `n` hexadecimal digits denotes a value below `16^n`.
pub proof fn lemma_hex_val_bound(s: Seq<char>)
    requires
        forall|i: int| 0 <= i < s.len() ==> is_hex_digit(s[i]),
    ensures
        hex_val(s) < pow16(s.len()),
    decreases s.len(),
{
    if s.len() > 0 {
        lemma_hex_val_bound(s.drop_last());
        assert(is_hex_digit(s.last()));
        assert(hex_digit_val(s.last()) < 16);
    }
}

/// Thirty-two hexadecimal digits cover exactly the 128-bit range.
pub proof fn lemma_pow16_32()
    ensures
        pow16(32) == u128_count(),
{
    assert(pow16(0) == 1);
    assert(pow16(1) == 0x10);
    assert(pow16(2) == 0x100);
    assert(pow16(3) == 0x1000);
    assert(pow16(4) == 0x10000);
    assert(pow16(5) == 0x100000);
    assert(pow16(6) == 0x1000000);
    assert(pow16(7) == 0x10000000);
    assert(pow16(8) == 0x100000000);
    assert(pow16(9) == 0x1000000000);
    assert(pow16(10) == 0x10000000000);
    assert(pow16(11) == 0x100000000000);
    assert(pow16(12) == 0x1000000000000);
    assert(pow16(13) == 0x10000000000000);
    assert(pow16(14) == 0x100000000000000);
    assert(pow16(15) == 0x1000000000000000);
    assert(pow16(16) == 0x10000000000000000);
    assert(pow16(17) == 0x100000000000000000);
    assert(pow16(18) == 0x1000000000000000000);
    assert(pow16(19) == 0x10000000000000000000);
    assert(pow16(20) == 0x100000000000000000000);
    assert(pow16(21) == 0x1000000000000000000000);
    assert(pow16(22) == 0x10000000000000000000000);
    assert(pow16(23) == 0x100000000000000000000000);
    assert(pow16(24) == 0x1000000000000000000000000);
    assert(pow16(25) == 0x10000000000000000000000000);
    assert(pow16(26) == 0x100000000000000000000000000);
    assert(pow16(27) == 0x1000000000000000000000000000);
    assert(pow16(28) == 0x10000000000000000000000000000);
    assert(pow16(29) == 0x100000000000000000000000000000);
    assert(pow16(30) == 0x1000000000000000000000000000000);
    assert(pow16(31) == 0x10000000000000000000000000000000);
    assert(pow16(32) == 0x100000000000000000000000000000000nat);
}

/// `16^n` does not shrink as `n` grows.
pub proof fn lemma_pow16_le(m: nat, n: nat)
    requires
        m <= n,
    ensures
        pow16(m) <= pow16(n),
    decreases n,
{
    if m < n {
        lemma_pow16_le(m, (n - 1) as nat);
    }
}

/// Extending a digit run by one digit multiplies its value by sixteen
/// and adds the new digit.
pub proof fn lemma_hex_val_take_succ(s: Seq<char>, m: int)
    requires
        0 <= m < s.len(),
    ensures
        hex_val(s.take(m + 1)) == hex_val(s.take(m)) * 16 + hex_digit_val(s[m]),
{
    assert(s.take(m + 1).drop_last() =~= s.take(m));
    assert(s.take(m + 1).last() == s[m]);
}

/// The value of a prefix of a digit run never exceeds the whole run's
/// value.
pub proof fn lemma_hex_val_take_le(s: Seq<char>, m: int)
    requires
        0 <= m <= s.len(),
    ensures
        hex_val(s.take(m)) <= hex_val(s),
    decreases s.len() - m,
{
    if m == s.len() {
        assert(s.take(m) =~= s);
    } else {
        lemma_hex_val_take_succ(s, m);
        lemma_hex_val_take_le(s, m + 1);
    }
}

/// The decimal digit character for a value below ten.
pub open spec fn dec_digit_char(v: nat) -> char
    recommends
        v < 10,
{
    if v == 0 {
        '0'
    } else if v == 1 {
        '1'
    } else if v == 2 {
        '2'
    } else if v == 3 {
        '3'
    } else if v == 4 {
        '4'
    } else if v == 5 {
        '5'
    } else if v == 6 {
        '6'
    } else if v == 7 {
        '7'
    } else if v == 8 {
        '8'
    } else {
        '9'
    }
}

/// The decimal rendering of `v`: no sign, no separators, no leading
/// zeros (a single `'0'` for zero).
pub open spec fn dec_str(v: nat) -> Seq<char>
    decreases v,
{
    if v < 10 {
        seq![dec_digit_char(v)]
    } else {
        dec_str(v / 10) + seq![dec_digit_char(v % 10)]
    }
}

/// A run of `n` ASCII spaces.
pub open spec fn spaces(n: nat) -> Seq<char> {
    Seq::new(n, |i: int| ' ')
}

/// `d` right-justified in a field of width `w`: padded on the left with
/// spaces when shorter, unchanged when as long or longer.
pub open spec fn pad_left(d: Seq<char>, w: nat) -> Seq<char> {
    if d.len() >= w {
        d
    } else {
        spaces((w - d.len()) as nat) + d
    }
}

/// The decimal rendering of `v` right-justified in a field of width `w`.
pub open spec fn padded_dec(v: nat, w: nat) -> Seq<char> {
    pad_left(dec_str(v), w)
}

/// A padded rendering is at least as long as its field.
pub proof fn lemma_padded_dec_len(v: nat, w: nat)
    ensures
        padded_dec(v, w).len() >= w,
{
}

/// Parse a run of hexadecimal digits into a 128-bit integer.
/// Reports `None` exactly when the value does not fit.
pub fn parse_hex_u128(digits: &Vec<char>) -> (r: Option<u128>)
    requires
        forall|i: int| 0 <= i < digits@.len() ==> is_hex_digit(digits@[i]),
    ensures
        match r {
            Some(v) => v as nat == hex_val(digits@) && hex_val(digits@) < u128_count(),
            None => hex_val(digits@) >= u128_count(),
        },
{
    let mut acc: u128 = 0;
    let mut m: usize = 0;
    let n = digits.len();
    proof {
        assert(digits@.take(0) =~= Seq::<char>::empty());
    }
    while m < n
        invariant
            n == digits@.len(),
            m <= n,
            forall|i: int| 0 <= i < digits@.len() ==> is_hex_digit(digits@[i]),
            acc as nat == hex_val(digits@.take(m as int)),
        decreases n - m,
    {
        let d = hex_digit_value(digits[m as usize]);
        proof {
            lemma_hex_val_take_succ(digits@, m as int);
        }
        if acc >= 0x10000000000000000000000000000000u128 {
            proof {
                assert(hex_val(digits@.take(m as int + 1)) >= u128_count());
                lemma_hex_val_take_le(digits@, m as int + 1);
            }
            return None;
        }
        acc = acc * 16 + d as u128;
        m = m + 1;
    }
    proof {
        assert(digits@.take(n as int) =~= digits@);
    }
    Some(acc)
}

/// The decimal digit character of `d`, as [`dec_digit_char`].
pub fn dec_digit(d: u8) -> (c: char)
    requires
        d < 10,
    ensures
        c == dec_digit_char(d as nat),
{
    if d == 0 {
        '0'
    } else if d == 1 {
        '1'
    } else if d == 2 {
        '2'
    } else if d == 3 {
        '3'
    } else if d == 4 {
        '4'
    } else if d == 5 {
        '5'
    } else if d == 6 {
        '6'
    } else if d == 7 {
        '7'
    } else if d == 8 {
        '8'
    } else {
        '9'
    }
}

/// Render `v` in decimal, as [`dec_str`].
pub fn dec_chars(v: u128) -> (r: Vec<char>)
    ensures
        r@ == dec_str(v as nat),
{
    let mut out: Vec<char> = Vec::new();
    let mut cur: u128 = v;
    proof {
        assert(dec_str(v as nat) =~= dec_str(cur as nat) + out@);
    }
    while cur >= 10
        invariant
            dec_str(v as nat) == dec_str(cur as nat) + out@,
        decreases cur,
    {
        let d = (cur % 10) as u8;
        let ghost prev: nat = cur as nat;
        let ghost prev_out: Seq<char> = out@;
        out.insert(0, dec_digit(d));
        cur = cur / 10;
        proof {
            assert(out@ =~= seq![dec_digit_char(prev % 10)] + prev_out);
            assert(dec_str(prev) == dec_str(prev / 10) + seq![dec_digit_char(prev % 10)]);
            assert(dec_str(prev / 10) + seq![dec_digit_char(prev % 10)] + prev_out =~= dec_str(
                prev / 10,
            ) + (seq![dec_digit_char(prev % 10)] + prev_out));
        }
    }
    let ghost prev_out: Seq<char> = out@;
    let d = cur as u8;
    out.insert(0, dec_digit(d));
    proof {
        assert(out@ =~= seq![dec_digit_char(cur as nat)] + prev_out);
        assert(dec_str(cur as nat) == seq![dec_digit_char(cur as nat)]);
    }
    out
}

/// Right-justify `digits` in a field of width `width`, as [`pad_left`].
pub fn pad_field(digits: Vec<char>, width: usize) -> (r: Vec<char>)
    ensures
        r@ == pad_left(digits@, width as nat),
{
    let ghost d: Seq<char> = digits@;
    let mut out = digits;
    proof {
        assert(out@ =~= spaces(0) + d);
    }
    while out.len() < width
        invariant
            out@.len() >= d.len(),
            out@ == spaces((out@.len() - d.len()) as nat) + d,
            d.len() < width ==> out@.len() <= width,
            d.len() >= width ==> out@ == d,
        decreases width - out@.len(),
    {
        let ghost prev_out: Seq<char> = out@;
        out.insert(0, ' ');
        proof {
            assert(out@ =~= seq![' '] + prev_out);
            assert(out@ =~= spaces((out@.len() - d.len()) as nat) + d);
        }
    }
    proof {
        if d.len() < width {
            assert(out@.len() == width);
        }
        assert(out@ =~= pad_left(d, width as nat));
    }
    out
}

} // verus!
