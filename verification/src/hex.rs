//! Fixed-width hexadecimal digit strings.
//!
//! Integer-valued logical keys are embedded in a physical key as a
//! fixed-width, big-endian string of lowercase hexadecimal digits, so that
//! the lexicographic order of the digit strings coincides with the numeric
//! order of the values. This module defines the digit strings, proves that
//! order correspondence, and proves that parsing inverts printing.

use vstd::prelude::*;

use crate::lex::lex_lt;
use crate::lex::lemma_lex_prefix;

verus! {

/// Sixteen to the power `n`.
pub open spec fn pow16(n: nat) -> int
    decreases n,
{
    if n == 0 {
        1
    } else {
        16 * pow16((n - 1) as nat)
    }
}

pub proof fn lemma_pow16_pos(n: nat)
    ensures
        pow16(n) >= 1,
    decreases n,
{
    if n > 0 {
        lemma_pow16_pos((n - 1) as nat);
    }
}

/// The lowercase hexadecimal digit character for `d`.
pub open spec fn hex_char(d: int) -> char {
    if d == 0 { '0' }
    else if d == 1 { '1' }
    else if d == 2 { '2' }
    else if d == 3 { '3' }
    else if d == 4 { '4' }
    else if d == 5 { '5' }
    else if d == 6 { '6' }
    else if d == 7 { '7' }
    else if d == 8 { '8' }
    else if d == 9 { '9' }
    else if d == 10 { 'a' }
    else if d == 11 { 'b' }
    else if d == 12 { 'c' }
    else if d == 13 { 'd' }
    else if d == 14 { 'e' }
    else { 'f' }
}

/// The value of a hexadecimal digit character; `-1` if `c` is no such digit.
pub open spec fn hex_val(c: char) -> int {
    if c == '0' { 0 }
    else if c == '1' { 1 }
    else if c == '2' { 2 }
    else if c == '3' { 3 }
    else if c == '4' { 4 }
    else if c == '5' { 5 }
    else if c == '6' { 6 }
    else if c == '7' { 7 }
    else if c == '8' { 8 }
    else if c == '9' { 9 }
    else if c == 'a' { 10 }
    else if c == 'b' { 11 }
    else if c == 'c' { 12 }
    else if c == 'd' { 13 }
    else if c == 'e' { 14 }
    else if c == 'f' { 15 }
    else { -1 }
}

pub proof fn lemma_hex_char_val(d: int)
    requires
        0 <= d < 16,
    ensures
        hex_val(hex_char(d)) == d,
{
}

/// The digit characters order exactly as the digits themselves.
pub proof fn lemma_hex_char_order(d1: int, d2: int)
    requires
        0 <= d1 < 16,
        0 <= d2 < 16,
    ensures
        (d1 < d2) <==> ((hex_char(d1) as u32) < (hex_char(d2) as u32)),
        (d1 == d2) <==> (hex_char(d1) == hex_char(d2)),
{
}

/// The `n` low-order hexadecimal digits of `v`, most significant first.
pub open spec fn hex_digits(v: int, n: nat) -> Seq<char>
    decreases n,
{
    if n == 0 {
        Seq::<char>::empty()
    } else {
        hex_digits(v / 16, (n - 1) as nat).push(hex_char(v % 16))
    }
}

pub proof fn lemma_hex_digits_len(v: int, n: nat)
    ensures
        hex_digits(v, n).len() == n,
    decreases n,
{
    if n > 0 {
        lemma_hex_digits_len(v / 16, (n - 1) as nat);
    }
}

/// A digit string splits as its leading digit followed by the digit string
/// of the remainder.
pub proof fn lemma_hex_digits_front(v: int, n: nat)
    requires
        n >= 1,
        0 <= v < pow16(n),
    ensures
        hex_digits(v, n) =~= seq![hex_char(v / pow16((n - 1) as nat))] + hex_digits(
            v % pow16((n - 1) as nat),
            (n - 1) as nat,
        ),
    decreases n,
{
    lemma_pow16_pos(n);
    if n == 1 {
        assert(pow16(0) == 1);
        assert(pow16(1) == 16 * pow16(0));
        assert(0 <= v < 16);
        assert(v / 1 == v);
        assert(v % 1 == 0) by {
            vstd::arithmetic::div_mod::lemma_small_mod(0nat, 1nat);
            vstd::arithmetic::div_mod::lemma_mod_multiples_basic(v, 1);
        }
        assert(v % 16 == v) by {
            vstd::arithmetic::div_mod::lemma_small_mod(v as nat, 16nat);
        }
        assert(hex_digits(v / 16, 0) =~= Seq::<char>::empty());
        assert(hex_digits(v, 1) =~= hex_digits(v / 16, 0).push(hex_char(v % 16)));
        assert(hex_digits(v, 1) =~= seq![hex_char(v)]);
        assert(hex_digits(0, 0) =~= Seq::<char>::empty());
    } else {
        let q = pow16((n - 2) as nat);
        let p = pow16((n - 1) as nat);
        lemma_pow16_pos((n - 2) as nat);
        lemma_pow16_pos((n - 1) as nat);
        assert(p == 16 * q);
        assert(pow16(n) == 16 * p);
        let a = v / 16;
        assert(0 <= a) by {
            vstd::arithmetic::div_mod::lemma_div_pos_is_pos(v, 16);
        }
        assert(a < p) by {
            vstd::arithmetic::div_mod::lemma_multiply_divide_lt(v, 16, p);
        }
        lemma_hex_digits_front(a, (n - 1) as nat);
        // v / p == a / q
        assert(a / q == v / (16 * q)) by {
            vstd::arithmetic::div_mod::lemma_div_denominator(v, 16, q);
        }
        // v % p == 16 * (a % q) + v % 16
        assert(v % (16 * q) == 16 * (a % q) + v % 16) by {
            vstd::arithmetic::div_mod::lemma_mod_breakdown(v, 16, q);
        }
        let r = v % p;
        assert(0 <= a % q < q) by {
            vstd::arithmetic::div_mod::lemma_mod_division_less_than_divisor(a, q);
        }
        assert(0 <= v % 16 < 16) by {
            vstd::arithmetic::div_mod::lemma_mod_division_less_than_divisor(v, 16);
        }
        assert(r / 16 == a % q && r % 16 == v % 16) by {
            vstd::arithmetic::div_mod::lemma_fundamental_div_mod_converse(
                r,
                16,
                a % q,
                v % 16,
            );
        }
        assert(hex_digits(v, n) =~= hex_digits(a, (n - 1) as nat).push(hex_char(v % 16)));
        assert(hex_digits(r, (n - 1) as nat) =~= hex_digits(r / 16, (n - 2) as nat).push(
            hex_char(r % 16),
        ));
    }
}

/// Digit strings of one width order exactly as the values they denote.
pub proof fn lemma_hex_digits_order(v: int, w: int, n: nat)
    requires
        0 <= v < pow16(n),
        0 <= w < pow16(n),
    ensures
        lex_lt(hex_digits(v, n), hex_digits(w, n)) <==> v < w,
    decreases n,
{
    if n == 0 {
        assert(v == 0 && w == 0);
    } else {
        let p = pow16((n - 1) as nat);
        lemma_pow16_pos((n - 1) as nat);
        lemma_hex_digits_front(v, n);
        lemma_hex_digits_front(w, n);
        let dv = v / p;
        let dw = w / p;
        let rv = v % p;
        let rw = w % p;
        assert(0 <= dv < 16 && 0 <= dw < 16) by {
            vstd::arithmetic::div_mod::lemma_div_pos_is_pos(v, p);
            vstd::arithmetic::div_mod::lemma_div_pos_is_pos(w, p);
            vstd::arithmetic::div_mod::lemma_multiply_divide_lt(v, p, 16);
            vstd::arithmetic::div_mod::lemma_multiply_divide_lt(w, p, 16);
        }
        assert(0 <= rv < p && 0 <= rw < p) by {
            vstd::arithmetic::div_mod::lemma_mod_division_less_than_divisor(v, p);
            vstd::arithmetic::div_mod::lemma_mod_division_less_than_divisor(w, p);
        }
        assert(v == p * dv + rv) by {
            vstd::arithmetic::div_mod::lemma_fundamental_div_mod(v, p);
        }
        assert(w == p * dw + rw) by {
            vstd::arithmetic::div_mod::lemma_fundamental_div_mod(w, p);
        }
        let sv = hex_digits(rv, (n - 1) as nat);
        let sw = hex_digits(rw, (n - 1) as nat);
        lemma_hex_char_order(dv, dw);
        if dv == dw {
            lemma_lex_prefix(seq![hex_char(dv)], sv, sw);
            lemma_hex_digits_order(rv, rw, (n - 1) as nat);
            assert((v < w) <==> (rv < rw)) by {
                assert(p * dv == p * dw);
            }
        } else {
            let cv = seq![hex_char(dv)] + sv;
            let cw = seq![hex_char(dw)] + sw;
            assert(cv.len() > 0 && cw.len() > 0);
            assert(cv[0] == hex_char(dv) && cw[0] == hex_char(dw));
            assert(lex_lt(cv, cw) <==> ((hex_char(dv) as u32) < (hex_char(dw) as u32)));
            assert((dv < dw) ==> (v < w)) by (nonlinear_arith)
                requires
                    v == p * dv + rv,
                    w == p * dw + rw,
                    0 <= rv < p,
                    0 <= rw < p,
                    p >= 1,
            ;
            assert((dw < dv) ==> (w < v)) by (nonlinear_arith)
                requires
                    v == p * dv + rv,
                    w == p * dw + rw,
                    0 <= rv < p,
                    0 <= rw < p,
                    p >= 1,
            ;
        }
    }
}

/// The numeric value denoted by a digit string, most significant first.
pub open spec fn unhex(s: Seq<char>) -> int
    decreases s.len(),
{
    if s.len() == 0 {
        0
    } else {
        16 * unhex(s.drop_last()) + hex_val(s.last())
    }
}

/// Every character of `s` is a lowercase hexadecimal digit.
pub open spec fn is_hex_seq(s: Seq<char>) -> bool {
    forall|i: int| 0 <= i < s.len() ==> hex_val(#[trigger] s[i]) >= 0
}

/// Parsing a printed digit string recovers the value.
pub proof fn lemma_unhex_hex_digits(v: int, n: nat)
    requires
        0 <= v < pow16(n),
    ensures
        unhex(hex_digits(v, n)) == v,
        is_hex_seq(hex_digits(v, n)),
    decreases n,
{
    if n == 0 {
    } else {
        let a = v / 16;
        assert(0 <= a) by {
            vstd::arithmetic::div_mod::lemma_div_pos_is_pos(v, 16);
        }
        assert(a < pow16((n - 1) as nat)) by {
            lemma_pow16_pos((n - 1) as nat);
            vstd::arithmetic::div_mod::lemma_multiply_divide_lt(v, 16, pow16((n - 1) as nat));
        }
        lemma_unhex_hex_digits(a, (n - 1) as nat);
        assert(0 <= v % 16 < 16) by {
            vstd::arithmetic::div_mod::lemma_mod_division_less_than_divisor(v, 16);
        }
        lemma_hex_char_val(v % 16);
        let s = hex_digits(v, n);
        assert(s =~= hex_digits(a, (n - 1) as nat).push(hex_char(v % 16)));
        assert(s.drop_last() =~= hex_digits(a, (n - 1) as nat));
        assert(s.last() == hex_char(v % 16));
        assert(v == 16 * a + v % 16) by {
            vstd::arithmetic::div_mod::lemma_fundamental_div_mod(v, 16);
        }
        assert forall|i: int| 0 <= i < s.len() implies hex_val(#[trigger] s[i]) >= 0 by {
            if i < s.len() - 1 {
                assert(s[i] == hex_digits(a, (n - 1) as nat)[i]);
            }
        }
    }
}

/// The digit character for `d`, as executable code.
pub fn hex_char_of(d: u8) -> (c: char)
    requires
        d < 16,
    ensures
        c == hex_char(d as int),
{
    match d {
        0 => '0',
        1 => '1',
        2 => '2',
        3 => '3',
        4 => '4',
        5 => '5',
        6 => '6',
        7 => '7',
        8 => '8',
        9 => '9',
        10 => 'a',
        11 => 'b',
        12 => 'c',
        13 => 'd',
        14 => 'e',
        _ => 'f',
    }
}

/// The value of a digit character, as executable code; `None` when `c` is
/// no lowercase hexadecimal digit.
pub fn hex_val_of(c: char) -> (r: Option<u8>)
    ensures
        hex_val(c) >= 0 ==> r == Some(hex_val(c) as u8),
        hex_val(c) < 0 ==> r is None,
{
    match c {
        '0' => Some(0),
        '1' => Some(1),
        '2' => Some(2),
        '3' => Some(3),
        '4' => Some(4),
        '5' => Some(5),
        '6' => Some(6),
        '7' => Some(7),
        '8' => Some(8),
        '9' => Some(9),
        'a' => Some(10),
        'b' => Some(11),
        'c' => Some(12),
        'd' => Some(13),
        'e' => Some(14),
        'f' => Some(15),
        _ => None,
    }
}

/// The two powers of sixteen that the sixteen-digit form depends on.
pub proof fn lemma_pow16_16()
    ensures
        pow16(15) == 0x1000_0000_0000_0000,
        pow16(16) == 0x1_0000_0000_0000_0000,
{
    assert(pow16(0) == 1);
    assert(pow16(1) == 16);
    assert(pow16(2) == 0x100);
    assert(pow16(3) == 0x1000);
    assert(pow16(4) == 0x1_0000);
    assert(pow16(5) == 0x10_0000);
    assert(pow16(6) == 0x100_0000);
    assert(pow16(7) == 0x1000_0000);
    assert(pow16(8) == 0x1_0000_0000);
    assert(pow16(9) == 0x10_0000_0000);
    assert(pow16(10) == 0x100_0000_0000);
    assert(pow16(11) == 0x1000_0000_0000);
    assert(pow16(12) == 0x1_0000_0000_0000);
    assert(pow16(13) == 0x10_0000_0000_0000);
    assert(pow16(14) == 0x100_0000_0000_0000);
    assert(pow16(15) == 0x1000_0000_0000_0000);
    assert(pow16(16) == 0x1_0000_0000_0000_0000);
}

/// Append the sixteen-digit form of `v` to `out`.
pub fn push_hex16(out: &mut Vec<char>, v: u64)
    ensures
        final(out)@ =~= old(out)@ + hex_digits(v as int, 16),
{
    proof {
        lemma_pow16_16();
    }
    let mut p: u64 = 0x1000_0000_0000_0000;
    let mut i: usize = 0;
    while i < 16
        invariant
            i <= 16,
            i < 16 ==> p == pow16((15 - i) as nat),
            v < pow16(16),
            out@ =~= old(out)@ + hex_digits(v as int / pow16((16 - i) as nat), i as nat),
        decreases 16 - i,
    {
        proof {
            lemma_pow16_pos((15 - i) as nat);
        }
        let d: u8 = ((v / p) % 16) as u8;
        proof {
            vstd::arithmetic::div_mod::lemma_mod_division_less_than_divisor((v / p) as int, 16);
        }
        let c = hex_char_of(d);
        out.push(c);
        proof {
            let n1: nat = (16 - i) as nat;
            let top_old = v as int / pow16(n1);
            let top_new = v as int / pow16((15 - i) as nat);
            assert(pow16(n1) == 16 * pow16((15 - i) as nat));
            assert(top_new / 16 == top_old) by {
                vstd::arithmetic::div_mod::lemma_div_denominator(
                    v as int,
                    pow16((15 - i) as nat),
                    16,
                );
                assert(pow16((15 - i) as nat) * 16 == 16 * pow16((15 - i) as nat));
            }
            assert(d as int == top_new % 16);
            assert(hex_digits(top_new, (i + 1) as nat) =~= hex_digits(top_old, i as nat).push(
                hex_char(top_new % 16),
            ));
        }
        i = i + 1;
        if i < 16 {
            p = p / 16;
            proof {
                assert(pow16((16 - i) as nat) == 16 * pow16((15 - i) as nat));
                assert(pow16((15 - i) as nat) == pow16((16 - i) as nat) / 16) by {
                    lemma_pow16_pos((15 - i) as nat);
                    vstd::arithmetic::div_mod::lemma_div_multiples_vanish(
                        pow16((15 - i) as nat),
                        16,
                    );
                }
            }
        }
    }
    proof {
        assert(pow16(0) == 1);
        assert(v as int / 1 == v as int);
    }
}

} // verus!
