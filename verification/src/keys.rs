//! The canonical key codec.
//!
//! A logical row key, together with its table's name, is encoded into one
//! physical key: the table name, the separator `/`, a one-character
//! variant tag, and a payload whose lexicographic order matches the
//! logical key's natural order. Integer payloads are sixteen lowercase
//! hexadecimal digits (signed values offset so that negatives sort
//! first), byte payloads are two digits per byte, and text payloads are
//! the text itself. Table names must not contain the separator; they are
//! rejected at schema creation.

use vstd::prelude::*;

use crate::error::StoreError;
use crate::hex::hex_char;
use crate::hex::hex_val;
use crate::hex::hex_digits;
use crate::hex::hex_char_of;
use crate::hex::hex_val_of;
use crate::hex::is_hex_seq;
use crate::hex::pow16;
use crate::hex::push_hex16;
use crate::hex::unhex;
use crate::hex::lemma_pow16_16;
use crate::hex::lemma_pow16_pos;
use crate::hex::lemma_hex_char_val;
use crate::hex::lemma_hex_digits_len;
use crate::hex::lemma_hex_digits_order;
use crate::hex::lemma_unhex_hex_digits;
use crate::lex::lex_lt;
use crate::lex::lemma_lex_first_char;
use crate::lex::lemma_lex_prefix;
use crate::lex::lemma_lex_prefix_decided;
use crate::lex::lemma_lex_trichotomy;

verus! {

/// A logical row key: the row's identity as the query engine sees it.
#[derive(Debug, Clone, PartialEq, Eq)]
pub enum Key {
    /// An opaque byte sequence, ordered bytewise.
    Bytea(Vec<u8>),
    /// A signed integer.
    I64(i64),
    /// Text, ordered by code point.
    Str(String),
    /// An unsigned integer; auto-assigned row identifiers use this variant.
    U64(u64),
}

/// The mathematical value of a logical key.
pub enum KeyV {
    Bytea(Seq<u8>),
    I64(i64),
    Str(Seq<char>),
    U64(u64),
}

impl View for Key {
    type V = KeyV;

    open spec fn view(&self) -> KeyV {
        match self {
            Key::Bytea(v) => KeyV::Bytea(v@),
            Key::I64(x) => KeyV::I64(*x),
            Key::Str(s) => KeyV::Str(s@),
            Key::U64(x) => KeyV::U64(*x),
        }
    }
}

/// A valid table name contains no separator character.
pub open spec fn table_ok(t: Seq<char>) -> bool {
    forall|i: int| 0 <= i < t.len() ==> t[i] != '/'
}

/// Strict lexicographic order on byte sequences.
pub open spec fn bytes_lt(a: Seq<u8>, b: Seq<u8>) -> bool
    decreases a.len(),
{
    if b.len() == 0 {
        false
    } else if a.len() == 0 {
        true
    } else if a[0] != b[0] {
        a[0] < b[0]
    } else {
        bytes_lt(a.skip(1), b.skip(1))
    }
}

/// The rank of a key's variant in the cross-variant order.
pub open spec fn key_rank(k: KeyV) -> int {
    match k {
        KeyV::Bytea(_) => 0,
        KeyV::I64(_) => 1,
        KeyV::Str(_) => 2,
        KeyV::U64(_) => 3,
    }
}

/// The deterministic total order on logical keys: by variant rank first,
/// then by the variant's natural value order.
pub open spec fn key_lt(a: KeyV, b: KeyV) -> bool {
    if key_rank(a) != key_rank(b) {
        key_rank(a) < key_rank(b)
    } else {
        match (a, b) {
            (KeyV::Bytea(x), KeyV::Bytea(y)) => bytes_lt(x, y),
            (KeyV::I64(x), KeyV::I64(y)) => x < y,
            (KeyV::Str(x), KeyV::Str(y)) => lex_lt(x, y),
            (KeyV::U64(x), KeyV::U64(y)) => x < y,
            _ => false,
        }
    }
}

/// The one-character variant tag; tag order equals rank order.
pub open spec fn key_tag(k: KeyV) -> char {
    match k {
        KeyV::Bytea(_) => 'b',
        KeyV::I64(_) => 'i',
        KeyV::Str(_) => 's',
        KeyV::U64(_) => 'u',
    }
}

/// A signed value shifted so that the whole range is nonnegative and the
/// shift preserves order.
pub open spec fn i64_offset(x: i64) -> int {
    x + 0x8000_0000_0000_0000
}

/// Two hexadecimal digits per byte, most significant first.
pub open spec fn bytes_hex(s: Seq<u8>) -> Seq<char>
    decreases s.len(),
{
    if s.len() == 0 {
        Seq::<char>::empty()
    } else {
        seq![hex_char(s[0] as int / 16), hex_char(s[0] as int % 16)] + bytes_hex(s.skip(1))
    }
}

/// The comparison payload of a logical key.
pub open spec fn key_payload(k: KeyV) -> Seq<char> {
    match k {
        KeyV::Bytea(v) => bytes_hex(v),
        KeyV::I64(x) => hex_digits(i64_offset(x), 16),
        KeyV::Str(s) => s,
        KeyV::U64(x) => hex_digits(x as int, 16),
    }
}

/// Tag plus payload: the comparison character form of a logical key.
pub open spec fn key_chars(k: KeyV) -> Seq<char> {
    seq![key_tag(k)] + key_payload(k)
}

/// The physical key of table `t` and logical key `k`.
pub open spec fn pkey_spec(t: Seq<char>, k: KeyV) -> Seq<char> {
    t + seq!['/'] + key_chars(k)
}

pub proof fn lemma_bytes_hex_len(s: Seq<u8>)
    ensures
        bytes_hex(s).len() == 2 * s.len(),
    decreases s.len(),
{
    if s.len() > 0 {
        lemma_bytes_hex_len(s.skip(1));
    }
}

/// Appending one byte appends its digit pair.
pub proof fn lemma_bytes_hex_snoc(s: Seq<u8>, b: u8)
    ensures
        bytes_hex(s.push(b)) =~= bytes_hex(s) + seq![
            hex_char(b as int / 16),
            hex_char(b as int % 16),
        ],
    decreases s.len(),
{
    let pairb = seq![hex_char(b as int / 16), hex_char(b as int % 16)];
    if s.len() == 0 {
        assert(s.push(b)[0] == b);
        assert(s.push(b).skip(1) =~= Seq::<u8>::empty());
        assert(bytes_hex(s.push(b)) =~= pairb + bytes_hex(s.push(b).skip(1)));
        assert(bytes_hex(Seq::<u8>::empty()) =~= Seq::<char>::empty());
        assert(bytes_hex(s.push(b)) =~= pairb);
        assert(bytes_hex(s) + pairb =~= pairb);
    } else {
        assert(s.push(b)[0] == s[0]);
        assert(s.push(b).skip(1) =~= s.skip(1).push(b));
        lemma_bytes_hex_snoc(s.skip(1), b);
        let pair0 = seq![hex_char(s[0] as int / 16), hex_char(s[0] as int % 16)];
        assert(bytes_hex(s.push(b)) =~= pair0 + bytes_hex(s.skip(1).push(b)));
        assert(pair0 + (bytes_hex(s.skip(1)) + pairb) =~= (pair0 + bytes_hex(s.skip(1))) + pairb);
    }
}

/// A byte's digit pair is its two-digit hexadecimal string.
proof fn lemma_pair_is_hex_digits(x: int)
    requires
        0 <= x < 256,
    ensures
        seq![hex_char(x / 16), hex_char(x % 16)] =~= hex_digits(x, 2),
{
    assert(0 <= x / 16 < 16) by {
        vstd::arithmetic::div_mod::lemma_div_pos_is_pos(x, 16);
        vstd::arithmetic::div_mod::lemma_multiply_divide_lt(x, 16, 16);
    }
    assert((x / 16) % 16 == x / 16) by {
        vstd::arithmetic::div_mod::lemma_small_mod((x / 16) as nat, 16nat);
    }
    assert((x / 16) / 16 == 0) by {
        vstd::arithmetic::div_mod::lemma_basic_div(x / 16, 16);
    }
    assert(hex_digits(x / 16, 1) =~= hex_digits((x / 16) / 16, 0).push(hex_char((x / 16) % 16)));
    assert(hex_digits(x, 2) =~= hex_digits(x / 16, 1).push(hex_char(x % 16)));
}

/// Digit-pair strings order exactly as the byte sequences they encode.
pub proof fn lemma_bytes_hex_order(a: Seq<u8>, b: Seq<u8>)
    ensures
        lex_lt(bytes_hex(a), bytes_hex(b)) <==> bytes_lt(a, b),
    decreases a.len() + b.len(),
{
    lemma_bytes_hex_len(a);
    lemma_bytes_hex_len(b);
    if b.len() == 0 {
    } else if a.len() == 0 {
    } else {
        let a0 = a[0] as int;
        let b0 = b[0] as int;
        let pa = seq![hex_char(a0 / 16), hex_char(a0 % 16)];
        let pb = seq![hex_char(b0 / 16), hex_char(b0 % 16)];
        let ra = bytes_hex(a.skip(1));
        let rb = bytes_hex(b.skip(1));
        assert(bytes_hex(a) =~= pa + ra);
        assert(bytes_hex(b) =~= pb + rb);
        lemma_bytes_hex_order(a.skip(1), b.skip(1));
        if a[0] == b[0] {
            lemma_lex_prefix(pa, ra, rb);
        } else {
            lemma_pair_is_hex_digits(a0);
            lemma_pair_is_hex_digits(b0);
            assert(pow16(2) == 256) by {
                assert(pow16(0) == 1);
                assert(pow16(1) == 16 * pow16(0));
                assert(pow16(2) == 16 * pow16(1));
            }
            lemma_hex_digits_order(a0, b0, 2);
            lemma_hex_digits_order(b0, a0, 2);
            if a0 < b0 {
                lemma_lex_prefix_decided(pa, pb, ra, rb);
                lemma_lex_trichotomy(bytes_hex(a), bytes_hex(b));
            } else {
                lemma_lex_prefix_decided(pb, pa, rb, ra);
                lemma_lex_trichotomy(bytes_hex(a), bytes_hex(b));
            }
        }
    }
}

/// The comparison character forms of two logical keys order exactly as
/// the keys themselves.
pub proof fn lemma_key_chars_order(a: KeyV, b: KeyV)
    ensures
        lex_lt(key_chars(a), key_chars(b)) <==> key_lt(a, b),
{
    let ca = key_chars(a);
    let cb = key_chars(b);
    assert(ca.len() >= 1 && cb.len() >= 1);
    assert(ca[0] == key_tag(a) && cb[0] == key_tag(b));
    lemma_pow16_16();
    if key_rank(a) != key_rank(b) {
        assert(key_tag(a) != key_tag(b));
        lemma_lex_first_char(ca, cb);
        assert(((key_tag(a) as u32) < (key_tag(b) as u32)) <==> key_rank(a) < key_rank(b));
    } else {
        assert(key_tag(a) == key_tag(b));
        lemma_lex_prefix(seq![key_tag(a)], key_payload(a), key_payload(b));
        match (a, b) {
            (KeyV::Bytea(x), KeyV::Bytea(y)) => {
                lemma_bytes_hex_order(x, y);
            },
            (KeyV::I64(x), KeyV::I64(y)) => {
                lemma_hex_digits_order(i64_offset(x), i64_offset(y), 16);
            },
            (KeyV::Str(_), KeyV::Str(_)) => {
            },
            (KeyV::U64(x), KeyV::U64(y)) => {
                lemma_hex_digits_order(x as int, y as int, 16);
            },
            _ => {
                assert(false);
            },
        }
    }
}

/// Order isomorphism: within one table, physical keys order exactly as
/// the logical keys they encode.
pub proof fn lemma_order_isomorphism(t: Seq<char>, a: KeyV, b: KeyV)
    ensures
        lex_lt(pkey_spec(t, a), pkey_spec(t, b)) <==> key_lt(a, b),
{
    lemma_key_chars_order(a, b);
    lemma_lex_prefix(t + seq!['/'], key_chars(a), key_chars(b));
    assert(pkey_spec(t, a) =~= (t + seq!['/']) + key_chars(a));
    assert(pkey_spec(t, b) =~= (t + seq!['/']) + key_chars(b));
}

/// Namespace isolation: distinct tables never share a physical key.
pub proof fn lemma_namespace_isolation(t1: Seq<char>, t2: Seq<char>, k1: KeyV, k2: KeyV)
    requires
        table_ok(t1),
        table_ok(t2),
        t1 != t2,
    ensures
        pkey_spec(t1, k1) != pkey_spec(t2, k2),
{
    let p1 = pkey_spec(t1, k1);
    let p2 = pkey_spec(t2, k2);
    assert(p1.len() == t1.len() + 1 + key_chars(k1).len());
    assert(p2.len() == t2.len() + 1 + key_chars(k2).len());
    assert(forall|i: int| 0 <= i < t1.len() ==> p1[i] == t1[i]);
    assert(forall|i: int| 0 <= i < t2.len() ==> p2[i] == t2[i]);
    assert(p1[t1.len() as int] == '/');
    assert(p2[t2.len() as int] == '/');
    if p1 == p2 {
        if t1.len() == t2.len() {
            assert(forall|i: int| 0 <= i < t1.len() ==> t1[i] == t2[i]);
            assert(t1 =~= t2);
        } else if t1.len() < t2.len() {
            assert(p2[t1.len() as int] == t2[t1.len() as int]);
            assert(t2[t1.len() as int] != '/');
        } else {
            assert(p1[t2.len() as int] == t1[t2.len() as int]);
            assert(t1[t2.len() as int] != '/');
        }
    }
}

/// Append every character of `s` to `out`.
pub fn push_str_chars(out: &mut Vec<char>, s: &str)
    ensures
        final(out)@ =~= old(out)@ + s@,
{
    let n = s.unicode_len();
    let mut i: usize = 0;
    while i < n
        invariant
            i <= n,
            n == s@.len(),
            out@ =~= old(out)@ + s@.take(i as int),
        decreases n - i,
    {
        let c = s.get_char(i);
        out.push(c);
        proof {
            assert(s@.take(i + 1 as int) =~= s@.take(i as int).push(s@[i as int]));
        }
        i = i + 1;
    }
    proof {
        assert(s@.take(n as int) =~= s@);
    }
}

/// Append the digit-pair form of every byte of `v` to `out`.
fn push_bytes_hex(out: &mut Vec<char>, v: &Vec<u8>)
    ensures
        final(out)@ =~= old(out)@ + bytes_hex(v@),
{
    let mut i: usize = 0;
    while i < v.len()
        invariant
            i <= v.len(),
            out@ =~= old(out)@ + bytes_hex(v@.take(i as int)),
        decreases v.len() - i,
    {
        let b = v[i];
        out.push(hex_char_of(b / 16));
        out.push(hex_char_of(b % 16));
        proof {
            assert(v@.take(i + 1 as int) =~= v@.take(i as int).push(v@[i as int]));
            lemma_bytes_hex_snoc(v@.take(i as int), v@[i as int]);
            assert(b as int / 16 == v@[i as int] as int / 16);
            assert(b as int % 16 == v@[i as int] as int % 16);
        }
        i = i + 1;
    }
    proof {
        assert(v@.take(v@.len() as int) =~= v@);
    }
}

/// Encode a (table, logical key) pair into its physical key.
pub fn convert_key(table_name: &str, key: &Key) -> (r: Vec<char>)
    ensures
        r@ =~= pkey_spec(table_name@, key@),
{
    let mut out: Vec<char> = Vec::new();
    push_str_chars(&mut out, table_name);
    out.push('/');
    proof {
        assert(out@ =~= table_name@ + seq!['/']);
    }
    match key {
        Key::Bytea(v) => {
            out.push('b');
            push_bytes_hex(&mut out, v);
        },
        Key::I64(x) => {
            out.push('i');
            let u: u64 = ((*x as i128) + 0x8000_0000_0000_0000i128) as u64;
            proof {
                assert(u as int == i64_offset(*x as i64));
            }
            push_hex16(&mut out, u);
        },
        Key::Str(s) => {
            out.push('s');
            push_str_chars(&mut out, s.as_str());
        },
        Key::U64(x) => {
            out.push('u');
            push_hex16(&mut out, *x);
        },
    }
    proof {
        assert(out@ =~= pkey_spec(table_name@, key@));
    }
    out
}

/// The physical key an auto-assigned row identifier encodes to.
pub fn generate_key(table_name: &str, id: u64) -> (r: Vec<char>)
    ensures
        r@ =~= pkey_spec(table_name@, KeyV::U64(id)),
{
    convert_key(table_name, &Key::U64(id))
}

/// The byte sequence a digit-pair string denotes; `None` if the string is
/// of odd length or holds a non-digit.
pub open spec fn unhex_bytes(s: Seq<char>) -> Option<Seq<u8>>
    decreases s.len(),
{
    if s.len() == 0 {
        Some(Seq::<u8>::empty())
    } else if s.len() == 1 {
        None::<Seq<u8>>
    } else if hex_val(s[0]) < 0 || hex_val(s[1]) < 0 {
        None::<Seq<u8>>
    } else {
        match unhex_bytes(s.skip(2)) {
            Some(r) => Some(seq![(16 * hex_val(s[0]) + hex_val(s[1])) as u8] + r),
            None => None::<Seq<u8>>,
        }
    }
}

/// What decoding a physical key against an expected table yields.
pub open spec fn decode_spec(t: Seq<char>, p: Seq<char>) -> Option<KeyV> {
    if p.len() < t.len() + 2 {
        None::<KeyV>
    } else if p.subrange(0, t.len() as int) != t {
        None::<KeyV>
    } else if p[t.len() as int] != '/' {
        None::<KeyV>
    } else {
        let tag = p[t.len() as int + 1];
        let payload = p.skip(t.len() as int + 2);
        if tag == 'b' {
            match unhex_bytes(payload) {
                Some(bs) => Some(KeyV::Bytea(bs)),
                None => None::<KeyV>,
            }
        } else if tag == 'i' {
            if payload.len() == 16 && is_hex_seq(payload) {
                Some(KeyV::I64((unhex(payload) - 0x8000_0000_0000_0000) as i64))
            } else {
                None::<KeyV>
            }
        } else if tag == 's' {
            Some(KeyV::Str(payload))
        } else if tag == 'u' {
            if payload.len() == 16 && is_hex_seq(payload) {
                Some(KeyV::U64(unhex(payload) as u64))
            } else {
                None::<KeyV>
            }
        } else {
            None::<KeyV>
        }
    }
}

/// Parsing a printed digit-pair string recovers the bytes.
pub proof fn lemma_unhex_bytes_hex(v: Seq<u8>)
    ensures
        unhex_bytes(bytes_hex(v)) == Some(v),
    decreases v.len(),
{
    lemma_bytes_hex_len(v);
    if v.len() == 0 {
        assert(bytes_hex(v) =~= Seq::<char>::empty());
        assert(unhex_bytes(bytes_hex(v)) == Some(Seq::<u8>::empty()));
        assert(Seq::<u8>::empty() =~= v);
    } else {
        let s = bytes_hex(v);
        let x = v[0] as int;
        assert(0 <= x / 16 < 16 && 0 <= x % 16 < 16) by {
            vstd::arithmetic::div_mod::lemma_div_pos_is_pos(x, 16);
            vstd::arithmetic::div_mod::lemma_multiply_divide_lt(x, 16, 16);
            vstd::arithmetic::div_mod::lemma_mod_division_less_than_divisor(x, 16);
        }
        lemma_hex_char_val(x / 16);
        lemma_hex_char_val(x % 16);
        assert(s[0] == hex_char(x / 16) && s[1] == hex_char(x % 16));
        assert(s.skip(2) =~= bytes_hex(v.skip(1)));
        lemma_unhex_bytes_hex(v.skip(1));
        assert(16 * (x / 16) + x % 16 == x) by {
            vstd::arithmetic::div_mod::lemma_fundamental_div_mod(x, 16);
        }
        assert(seq![(16 * hex_val(s[0]) + hex_val(s[1])) as u8] + v.skip(1) =~= v);
    }
}

/// Round trip: decoding an encoded key against its own table recovers it.
pub proof fn lemma_round_trip(t: Seq<char>, k: KeyV)
    requires
        table_ok(t),
    ensures
        decode_spec(t, pkey_spec(t, k)) == Some(k),
{
    let p = pkey_spec(t, k);
    lemma_pow16_16();
    assert(p.len() == t.len() + 2 + key_payload(k).len());
    assert(p.subrange(0, t.len() as int) =~= t);
    assert(p[t.len() as int] == '/');
    assert(p[t.len() as int + 1] == key_tag(k));
    let payload = p.skip(t.len() as int + 2);
    assert(payload =~= key_payload(k));
    match k {
        KeyV::Bytea(v) => {
            lemma_unhex_bytes_hex(v);
        },
        KeyV::I64(x) => {
            lemma_hex_digits_len(i64_offset(x), 16);
            lemma_unhex_hex_digits(i64_offset(x), 16);
        },
        KeyV::Str(_) => {
        },
        KeyV::U64(x) => {
            lemma_hex_digits_len(x as int, 16);
            lemma_unhex_hex_digits(x as int, 16);
        },
    }
}

/// Copy a character vector.
pub fn dup_chars(v: &Vec<char>) -> (r: Vec<char>)
    ensures
        r@ =~= v@,
{
    let mut r: Vec<char> = Vec::new();
    let mut i: usize = 0;
    while i < v.len()
        invariant
            i <= v.len(),
            r@ =~= v@.take(i as int),
        decreases v.len() - i,
    {
        r.push(v[i]);
        proof {
            assert(v@.take(i + 1 as int) =~= v@.take(i as int).push(v@[i as int]));
        }
        i = i + 1;
    }
    proof {
        assert(v@.take(v@.len() as int) =~= v@);
    }
    r
}

/// Copy a byte vector.
pub fn dup_bytes(v: &Vec<u8>) -> (r: Vec<u8>)
    ensures
        r@ =~= v@,
{
    let mut r: Vec<u8> = Vec::new();
    let mut i: usize = 0;
    while i < v.len()
        invariant
            i <= v.len(),
            r@ =~= v@.take(i as int),
        decreases v.len() - i,
    {
        r.push(v[i]);
        proof {
            assert(v@.take(i + 1 as int) =~= v@.take(i as int).push(v@[i as int]));
        }
        i = i + 1;
    }
    proof {
        assert(v@.take(v@.len() as int) =~= v@);
    }
    r
}

/// Copy a logical key.
pub fn dup_key(k: &Key) -> (r: Key)
    ensures
        r@ == k@,
{
    match k {
        Key::Bytea(v) => Key::Bytea(dup_bytes(v)),
        Key::I64(x) => Key::I64(*x),
        Key::Str(s) => Key::Str(s.clone()),
        Key::U64(x) => Key::U64(*x),
    }
}

/// Does the name avoid the reserved separator character?
pub fn table_name_ok(s: &str) -> (r: bool)
    ensures
        r == table_ok(s@),
{
    let n = s.unicode_len();
    let mut i: usize = 0;
    while i < n
        invariant
            i <= n,
            n == s@.len(),
            forall|j: int| 0 <= j < i ==> s@[j] != '/',
        decreases n - i,
    {
        if s.get_char(i) == '/' {
            return false;
        }
        i = i + 1;
    }
    true
}

/// Distinct logical keys of one table encode to distinct physical keys.
pub proof fn lemma_pkey_injective(t: Seq<char>, a: KeyV, b: KeyV)
    requires
        table_ok(t),
        a != b,
    ensures
        pkey_spec(t, a) != pkey_spec(t, b),
{
    lemma_round_trip(t, a);
    lemma_round_trip(t, b);
}

/// Relies on std's `String::push`: it appends exactly the one character.
#[verifier::external_body]
fn push_char(s: &mut String, c: char)
    ensures
        final(s)@ == old(s)@.push(c),
{
    s.push(c);
}

/// Decode a physical key back into the logical key of the expected table.
///
/// Fails with `KeyDecode`, carrying the physical key, exactly when the key
/// does not parse as an encoding for that table.
#[verifier::loop_isolation(false)]
pub fn retrieve_key(table_name: &str, key: &Vec<char>) -> (r: Result<Key, StoreError>)
    ensures
        match r {
            Ok(k) => decode_spec(table_name@, key@) == Some(k@),
            Err(e) => decode_spec(table_name@, key@) is None && (e matches StoreError::KeyDecode(
                p,
            ) && p@ == key@),
        },
{
    let tlen = table_name.unicode_len();
    if key.len() <= tlen {
        return Err(StoreError::KeyDecode(dup_chars(key)));
    }
    if key.len() - tlen < 2 {
        return Err(StoreError::KeyDecode(dup_chars(key)));
    }
    let mut i: usize = 0;
    while i < tlen
        invariant
            i <= tlen,
            tlen == table_name@.len(),
            key.len() >= tlen + 2,
            forall|j: int| 0 <= j < i ==> key@[j] == table_name@[j],
        decreases tlen - i,
    {
        if key[i] != table_name.get_char(i) {
            proof {
                assert(key@.subrange(0, tlen as int)[i as int] != table_name@[i as int]);
            }
            return Err(StoreError::KeyDecode(dup_chars(key)));
        }
        i = i + 1;
    }
    proof {
        assert(key@.subrange(0, tlen as int) =~= table_name@);
    }
    if key[tlen] != '/' {
        return Err(StoreError::KeyDecode(dup_chars(key)));
    }
    let tag = key[tlen + 1];
    let start = tlen + 2;
    let ghost payload = key@.skip(start as int);
    proof {
        assert(payload.len() == key@.len() - start);
        assert(forall|j: int|
            0 <= j < payload.len() ==> payload[j] == key@[start + j]);
    }
    match tag {
        'b' => {
            let mut out: Vec<u8> = Vec::new();
            let mut j: usize = start;
            proof {
                assert(payload.skip(0) =~= payload);
            }
            while j < key.len() - 1
                invariant
                    start <= j <= key.len(),
                    start == tlen + 2,
                    tlen == table_name@.len(),
                    key.len() >= start,
                    payload =~= key@.skip(start as int),
                    (j - start) % 2 == 0,
                    unhex_bytes(payload) == match unhex_bytes(payload.skip(j as int - start as int)) {
                        Some(r) => Some(out@ + r),
                        None => None::<Seq<u8>>,
                    },
                decreases key.len() - j,
            {
                let ghost rest = payload.skip(j as int - start as int);
                proof {
                    assert(rest.len() == key@.len() - j);
                    assert(rest[0] == key@[j as int]);
                    assert(rest[1] == key@[j + 1]);
                }
                let d0 = hex_val_of(key[j]);
                let d1 = hex_val_of(key[j + 1]);
                match (d0, d1) {
                    (Some(h), Some(l)) => {
                        let ghost prev = out@;
                        out.push(16 * h + l);
                        proof {
                            assert(rest.skip(2) =~= payload.skip(j as int + 2 - start as int));
                            if unhex_bytes(rest.skip(2)) is Some {
                                let r2 = unhex_bytes(rest.skip(2))->Some_0;
                                assert(unhex_bytes(rest) == Some(
                                    seq![(16 * hex_val(rest[0]) + hex_val(rest[1])) as u8] + r2,
                                ));
                                assert(out@ + r2 =~= prev + (seq![(16 * hex_val(rest[0])
                                    + hex_val(rest[1])) as u8] + r2));
                            }
                        }
                        j = j + 2;
                    },
                    _ => {
                        proof {
                            assert(unhex_bytes(rest) is None);
                        }
                        return Err(StoreError::KeyDecode(dup_chars(key)));
                    },
                }
            }
            if j < key.len() {
                proof {
                    assert(payload.skip(j as int - start as int).len() == 1);
                    assert(unhex_bytes(payload.skip(j as int - start as int)) is None);
                }
                return Err(StoreError::KeyDecode(dup_chars(key)));
            }
            proof {
                assert(payload.skip(j as int - start as int) =~= Seq::<char>::empty());
                assert(unhex_bytes(Seq::<char>::empty()) == Some(Seq::<u8>::empty()));
                assert(out@ + Seq::<u8>::empty() =~= out@);
            }
            Ok(Key::Bytea(out))
        },
        'i' => {
            match parse_hex16(key, start) {
                Some(u) => {
                    let x: i64 = ((u as i128) - 0x8000_0000_0000_0000i128) as i64;
                    proof {
                        lemma_pow16_16();
                        assert(x as int == unhex(payload) - 0x8000_0000_0000_0000);
                    }
                    Ok(Key::I64(x))
                },
                None => Err(StoreError::KeyDecode(dup_chars(key))),
            }
        },
        's' => {
            let mut acc = String::new();
            let mut j: usize = start;
            while j < key.len()
                invariant
                    start <= j <= key.len(),
                    start == tlen + 2,
                    key.len() >= start,
                    payload =~= key@.skip(start as int),
                    acc@ =~= payload.take(j as int - start as int),
                decreases key.len() - j,
            {
                push_char(&mut acc, key[j]);
                proof {
                    assert(payload.take(j as int + 1 - start as int) =~= payload.take(j as int - start as int).push(
                        payload[j as int - start as int],
                    ));
                    assert(payload[j as int - start as int] == key@[j as int]);
                }
                j = j + 1;
            }
            proof {
                assert(payload.take(payload.len() as int) =~= payload);
            }
            Ok(Key::Str(acc))
        },
        'u' => {
            match parse_hex16(key, start) {
                Some(u) => {
                    proof {
                        lemma_pow16_16();
                    }
                    Ok(Key::U64(u))
                },
                None => Err(StoreError::KeyDecode(dup_chars(key))),
            }
        },
        _ => Err(StoreError::KeyDecode(dup_chars(key))),
    }
}

/// Parse the sixteen digits of `key` from `start` on as one value.
/// `None` exactly when the tail is not sixteen digits long.
#[verifier::loop_isolation(false)]
fn parse_hex16(key: &Vec<char>, start: usize) -> (r: Option<u64>)
    requires
        start <= key@.len(),
    ensures
        match r {
            Some(u) => key@.skip(start as int).len() == 16 && is_hex_seq(
                key@.skip(start as int),
            ) && u as int == unhex(key@.skip(start as int)),
            None => !(key@.skip(start as int).len() == 16 && is_hex_seq(
                key@.skip(start as int),
            )),
        },
{
    let ghost payload = key@.skip(start as int);
    if key.len() - start != 16 {
        return None;
    }
    let mut acc: u64 = 0;
    let mut j: usize = 0;
    proof {
        lemma_pow16_16();
        assert(payload.take(0) =~= Seq::<char>::empty());
        assert(pow16(0) == 1);
    }
    while j < 16
        invariant
            j <= 16,
            start + 16 == key@.len(),
            key@.len() <= usize::MAX,
            payload =~= key@.skip(start as int),
            payload.len() == 16,
            acc as int == unhex(payload.take(j as int)),
            is_hex_seq(payload.take(j as int)),
            acc < pow16(j as nat),
            pow16(15) == 0x1000_0000_0000_0000,
            pow16(16) == 0x1_0000_0000_0000_0000,
        decreases 16 - j,
    {
        let c = key[start + j];
        proof {
            assert(payload[j as int] == key@[start + j]);
        }
        match hex_val_of(c) {
            Some(d) => {
                proof {
                    lemma_pow16_mono(j as nat, 15);
                    assert(acc < pow16(15));
                    assert(16 * acc + d < 16 * pow16(15));
                }
                acc = 16 * acc + (d as u64);
                proof {
                    let tj = payload.take(j as int);
                    let tj1 = payload.take(j as int + 1);
                    assert(tj1.drop_last() =~= tj);
                    assert(tj1.last() == payload[j as int]);
                    assert(unhex(tj1) == 16 * unhex(tj) + hex_val(payload[j as int]));
                    assert(is_hex_seq(tj1)) by {
                        assert forall|q: int| 0 <= q < tj1.len() implies hex_val(tj1[q]) >= 0 by {
                            if q < j as int {
                                assert(tj1[q] == tj[q]);
                            } else {
                                assert(tj1[q] == payload[j as int]);
                            }
                        }
                    }
                    assert(pow16((j + 1) as nat) == 16 * pow16(j as nat));
                }
            },
            None => {
                proof {
                    assert(hex_val(payload[j as int]) < 0);
                }
                return None;
            },
        }
        j = j + 1;
    }
    proof {
        assert(payload.take(16) =~= payload);
    }
    Some(acc)
}

/// Powers of sixteen grow with the exponent.
proof fn lemma_pow16_mono(a: nat, b: nat)
    requires
        a <= b,
    ensures
        pow16(a) <= pow16(b),
    decreases b,
{
    if a < b {
        lemma_pow16_mono(a, (b - 1) as nat);
        lemma_pow16_pos((b - 1) as nat);
    }
}

} // verus!
