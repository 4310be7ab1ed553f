//! Property values, and the byte strings under which they are indexed.

use vstd::arithmetic::power2::pow2;
use vstd::prelude::*;
use vstd::utf8::{decode_utf8, encode_utf8, valid_utf8};

use crate::keys::{
    be_bytes, be_value, bytes_equal, bytes_lt, lemma_be_len, lemma_be_order, lemma_be_round_trip,
    lemma_byte_powers, lemma_bytes_lt_prefix, lemma_bytes_lt_suffix, push_all, push_be, read_be,
};

verus! {

/// A property value. A float is held as its IEEE-754 binary64 bit pattern, an
/// array or object as its JSON text.
#[derive(Debug, PartialEq, Eq)]
pub enum PropValue {
    /// No value.
    Null,
    /// A truth value.
    Bool(bool),
    /// A signed integer.
    Int(i64),
    /// An unsigned integer, for those that are no `i64`.
    UInt(u64),
    /// The bit pattern of a binary64 number.
    Float(u64),
    /// A string.
    Str(String),
    /// The JSON text of an array or object.
    Json(String),
}

/// What a property value is.
pub enum Val {
    Null,
    Bool(bool),
    Int(i64),
    UInt(u64),
    Float(u64),
    Str(Seq<char>),
    Json(Seq<char>),
}

impl View for PropValue {
    type V = Val;

    open spec fn view(&self) -> Val {
        match self {
            PropValue::Null => Val::Null,
            PropValue::Bool(b) => Val::Bool(*b),
            PropValue::Int(i) => Val::Int(*i),
            PropValue::UInt(u) => Val::UInt(*u),
            PropValue::Float(bits) => Val::Float(*bits),
            PropValue::Str(s) => Val::Str(s@),
            PropValue::Json(s) => Val::Json(s@),
        }
    }
}

/// The longest string, in bytes, that is indexed.
pub const MAX_INDEXED_STRING_LEN: usize = 480;

/// The encoding of a null value.
pub const ENCODED_NULL: u8 = 0;

/// Two to the power 52: one unit of the exponent field of a binary64 number.
pub const EXPONENT_UNIT: u64 = 0x10_0000_0000_0000;

/// Two to the power 63: the sign bit.
pub const SIGN: u64 = 0x8000_0000_0000_0000;

/// The exponent of the largest power of two that is at most `m`.
pub open spec fn log2(m: nat) -> nat
    decreases m,
{
    if m <= 1 {
        0
    } else {
        1 + log2(m / 2)
    }
}

/// `m / d`, rounded to the nearest integer, and to the even one of two that
/// are as near.
pub open spec fn half_even(m: nat, d: nat) -> nat {
    let (q, r) = (m / d, m % d);
    if 2 * r > d || (2 * r == d && q % 2 == 1) {
        q + 1
    } else {
        q
    }
}

/// The significand of the binary64 number nearest to `m`, whose leading bit has the weight
/// `2^log2(m)`; it has 53 bits, or is `2^53` where rounding carried out of them.
pub open spec fn significand(m: nat) -> nat {
    let e = log2(m);
    if e <= 52 {
        m * pow2((52 - e) as nat)
    } else {
        half_even(m, pow2((e - 52) as nat))
    }
}

/// The bit pattern of the binary64 number nearest to `m`.
pub open spec fn magnitude_bits(m: nat) -> nat {
    if m == 0 {
        0
    } else {
        (log2(m) + 1022) * 0x10_0000_0000_0000 + significand(m)
    }
}

/// The bit pattern of the binary64 number nearest to `i`.
pub open spec fn float_of(i: int) -> nat {
    if i < 0 {
        magnitude_bits((-i) as nat) + 0x8000_0000_0000_0000
    } else {
        magnitude_bits(i as nat)
    }
}

/// The integer that a binary64 number is, where it is one between `-2^63` and `2^63`.
pub open spec fn integral(bits: u64) -> Option<int> {
    let magnitude = bits as nat % 0x8000_0000_0000_0000;
    let e = magnitude / 0x10_0000_0000_0000;
    let f = 0x10_0000_0000_0000 + magnitude % 0x10_0000_0000_0000;
    let m = if magnitude == 0 {
        Some(0nat)
    } else if e < 1023 || e > 1086 {
        None
    } else if e >= 1075 {
        Some((f * pow2((e - 1075) as nat)) as nat)
    } else if f % pow2((1075 - e) as nat) == 0 {
        Some((f / pow2((1075 - e) as nat)) as nat)
    } else {
        None
    };
    match m {
        Some(v) if v <= 0x8000_0000_0000_0000 => if bits >= 0x8000_0000_0000_0000 {
            Some(-(v as int))
        } else {
            Some(v as int)
        },
        _ => None,
    }
}

/// A bit pattern as a number that orders as the binary64 numbers do; the two zeros
/// have one.
pub open spec fn sort_key(bits: nat) -> nat {
    if bits > 0x8000_0000_0000_0000 {
        (0xffff_ffff_ffff_ffff - bits) as nat
    } else if bits == 0x8000_0000_0000_0000 {
        0x8000_0000_0000_0000
    } else {
        bits + 0x8000_0000_0000_0000
    }
}

/// The number that tells integers with one nearest float apart.
pub open spec fn tie_key(i: Option<int>) -> nat {
    match i {
        None => 0,
        Some(v) => if v > 0x7fff_ffff_ffff_ffff {
            0xffff_ffff_ffff_ffff
        } else {
            (v + 0x8000_0000_0000_0000) as nat
        },
    }
}

/// The encoding of a number, from its bit pattern and the integer that it is.
pub open spec fn number_bytes(bits: nat, i: Option<int>) -> Seq<u8> {
    seq![3u8] + be_bytes(sort_key(bits), 8) + be_bytes(tie_key(i), 8)
}

/// The bytes under which a value is indexed. An array, an object or a string
/// that is too long has none.
pub open spec fn encoding(v: Val) -> Option<Seq<u8>> {
    match v {
        Val::Null => Some(seq![0u8]),
        Val::Bool(false) => Some(seq![1u8]),
        Val::Bool(true) => Some(seq![2u8]),
        Val::Int(i) => Some(number_bytes(float_of(i as int), Some(i as int))),
        Val::UInt(u) => {
            let bits = float_of(u as int);
            Some(
                number_bytes(
                    bits,
                    if u <= 0x7fff_ffff_ffff_ffff {
                        Some(u as int)
                    } else {
                        integral(bits as u64)
                    },
                ),
            )
        },
        Val::Float(bits) => Some(number_bytes(bits as nat, integral(bits))),
        Val::Str(s) => if encode_utf8(s).len() > 480 {
            None
        } else {
            Some(seq![4u8] + encode_utf8(s) + seq![0u8])
        },
        Val::Json(_) => None,
    }
}

/// Whether two values are the same to an index or a constraint: by their
/// encodings where they have them, exactly where they have none.
pub open spec fn same_value(a: Val, b: Val) -> bool {
    match (encoding(a), encoding(b)) {
        (Some(x), Some(y)) => x == y,
        (None, None) => a == b,
        _ => false,
    }
}

proof fn lemma_pow2_step(n: nat)
    requires
        n > 0,
    ensures
        pow2(n) == 2 * pow2((n - 1) as nat),
        pow2(n) > 0,
{
    vstd::arithmetic::power2::lemma_pow2_unfold(n);
    vstd::arithmetic::power2::lemma_pow2_pos((n - 1) as nat);
}

proof fn lemma_pow2_le(a: nat, b: nat)
    requires
        a <= b,
    ensures
        0 < pow2(a) <= pow2(b),
    decreases b,
{
    vstd::arithmetic::power2::lemma_pow2_pos(a);
    if a < b {
        lemma_pow2_step(b);
        lemma_pow2_le(a, (b - 1) as nat);
    }
}

proof fn lemma_pow2_split(a: nat, b: nat)
    ensures
        pow2(a + b) == pow2(a) * pow2(b),
{
    vstd::arithmetic::power2::lemma_pow2_adds(a, b);
}

proof fn lemma_powers()
    ensures
        pow2(0) == 1,
        pow2(11) == 0x800,
        pow2(52) == 0x10_0000_0000_0000,
        pow2(53) == 0x20_0000_0000_0000,
        pow2(63) == 0x8000_0000_0000_0000,
        pow2(64) == 0x1_0000_0000_0000_0000,
{
    vstd::arithmetic::power2::lemma2_to64();
    vstd::arithmetic::power2::lemma2_to64_rest();
}

/// `2^log2(m) <= m < 2^(log2(m) + 1)`.
proof fn lemma_log2(m: nat)
    requires
        m > 0,
    ensures
        pow2(log2(m)) <= m < pow2(log2(m) + 1),
    decreases m,
{
    lemma_powers();
    if m > 1 {
        lemma_log2(m / 2);
        lemma_pow2_step(log2(m));
        lemma_pow2_step(log2(m) + 1);
    } else {
        lemma_pow2_step(1);
    }
}

proof fn lemma_log2_is(m: nat, e: nat)
    requires
        pow2(e) <= m < pow2(e + 1),
    ensures
        log2(m) == e,
{
    lemma_pow2_le(e, e);
    lemma_log2(m);
    if log2(m) < e {
        lemma_pow2_le(log2(m) + 1, e);
    } else if log2(m) > e {
        lemma_pow2_le(e + 1, log2(m));
    }
}

/// A significand has 53 bits, or is `2^53`.
proof fn lemma_significand(m: nat)
    requires
        m > 0,
    ensures
        0x10_0000_0000_0000 <= significand(m) <= 0x20_0000_0000_0000,
        log2(m) < 52 ==> significand(m) < 0x20_0000_0000_0000,
{
    let e = log2(m);
    lemma_log2(m);
    lemma_powers();
    if e <= 52 {
        let d = (52 - e) as nat;
        let p = pow2(d);
        lemma_pow2_split(e, d);
        lemma_pow2_split(e + 1, d);
        lemma_pow2_le(d, d);
        assert(pow2(e) * p <= m * p < pow2(e + 1) * p) by (nonlinear_arith)
            requires
                pow2(e) <= m < pow2(e + 1),
                p > 0,
        ;
        assert(e + d == 52 && (e + 1) + d == 53);
    } else {
        let d = (e - 52) as nat;
        let p = pow2(d);
        lemma_pow2_split(52, d);
        lemma_pow2_split(53, d);
        lemma_pow2_le(d, d);
        let q = m / p;
        assert(0x10_0000_0000_0000 <= q < 0x20_0000_0000_0000) by (nonlinear_arith)
            requires
                0x10_0000_0000_0000 * p <= m < 0x20_0000_0000_0000 * p,
                q == m / p,
                p > 0,
        ;
    }
}

proof fn lemma_half_even_monotone(a: nat, b: nat, d: nat)
    requires
        a <= b,
        d > 0,
    ensures
        half_even(a, d) <= half_even(b, d),
{
    let (qa, ra) = (a / d, a % d);
    let (qb, rb) = (b / d, b % d);
    assert(a == qa * d + ra && b == qb * d + rb && ra < d && rb < d) by (nonlinear_arith)
        requires
            qa == a / d,
            ra == a % d,
            qb == b / d,
            rb == b % d,
            d > 0,
    ;
    assert(qa <= qb) by (nonlinear_arith)
        requires
            a <= b,
            a == qa * d + ra,
            b == qb * d + rb,
            rb < d,
            d > 0,
    ;
    if qa == qb {
        assert(ra <= rb);
    }
}

/// Of two integers, the larger has the larger nearest float, or the same one.
proof fn lemma_magnitude_monotone(a: nat, b: nat)
    requires
        a <= b,
    ensures
        magnitude_bits(a) <= magnitude_bits(b),
{
    if a > 0 {
        let (x, y) = (log2(a), log2(b));
        lemma_log2(a);
        lemma_log2(b);
        lemma_significand(a);
        lemma_significand(b);
        if x > y {
            lemma_pow2_le(y + 1, x);
        }
        if x == y {
            if x <= 52 {
                let p = pow2((52 - x) as nat);
                lemma_pow2_le((52 - x) as nat, (52 - x) as nat);
                assert(a * p <= b * p) by (nonlinear_arith)
                    requires
                        a <= b,
                        p > 0,
                ;
            } else {
                lemma_pow2_le((x - 52) as nat, (x - 52) as nat);
                lemma_half_even_monotone(a, b, pow2((x - 52) as nat));
            }
        }
    }
}

/// The bit patterns of the integers below `2^64` are those of finite numbers.
pub(crate) proof fn lemma_magnitude_bound(m: nat)
    requires
        m < 0x1_0000_0000_0000_0000,
    ensures
        magnitude_bits(m) <= 1087 * 0x10_0000_0000_0000,
        m > 0 ==> magnitude_bits(m) >= 1023 * 0x10_0000_0000_0000,
{
    if m > 0 {
        lemma_log2(m);
        lemma_significand(m);
        lemma_powers();
        if log2(m) > 63 {
            lemma_pow2_le(64, log2(m));
        }
    }
}

/// The exponent of the largest power of two that is at most `m`, and that power.
fn leading_power(m: u64) -> (r: (u32, u64))
    requires
        m > 0,
    ensures
        r.0 == log2(m as nat),
        r.1 == pow2(r.0 as nat),
        r.1 > 0,
        r.0 <= 63,
{
    let mut e: u32 = 0;
    let mut p: u64 = 1;
    proof {
        lemma_powers();
    }
    while m / 2 >= p
        invariant
            m > 0,
            e <= 63,
            p == pow2(e as nat),
            1 <= p <= m,
        decreases m - p,
    {
        proof {
            lemma_pow2_step((e + 1) as nat);
            lemma_powers();
            if e == 63 {
                assert(m / 2 < 0x8000_0000_0000_0000);
            }
        }
        p = p * 2;
        e = e + 1;
    }
    proof {
        lemma_pow2_step((e + 1) as nat);
        lemma_log2_is(m as nat, e as nat);
    }
    (e, p)
}

/// The bit pattern of the binary64 number nearest to `m`.
pub fn magnitude_float(m: u64) -> (bits: u64)
    ensures
        bits == magnitude_bits(m as nat),
{
    if m == 0 {
        return 0;
    }
    let (e, p): (u32, u64) = leading_power(m);
    proof {
        lemma_significand(m as nat);
        lemma_magnitude_bound(m as nat);
        lemma_powers();
    }
    let s: u64;
    if e <= 52 {
        proof {
            lemma_pow2_split((52 - e) as nat, e as nat);
            lemma_pow2_le(0, (52 - e) as nat);
            lemma_pow2_le((52 - e) as nat, 52);
            let d = pow2((52 - e) as nat);
            assert(0x10_0000_0000_0000nat / (p as nat) == d) by (nonlinear_arith)
                requires
                    d * p == 0x10_0000_0000_0000nat,
                    p > 0,
            ;
        }
        s = m * (EXPONENT_UNIT / p);
    } else {
        let d: u64 = p / EXPONENT_UNIT;
        proof {
            lemma_pow2_split(52, (e - 52) as nat);
            let w = pow2((e - 52) as nat);
            lemma_pow2_le(0, (e - 52) as nat);
            assert(p as nat / 0x10_0000_0000_0000 == w) by (nonlinear_arith)
                requires
                    p == 0x10_0000_0000_0000 * w,
            ;
            lemma_pow2_le((e - 52) as nat, 11);
        }
        let q: u64 = m / d;
        let r: u64 = m % d;
        s = if 2 * r > d || (2 * r == d && q % 2 == 1) {
            q + 1
        } else {
            q
        };
    }
    (e as u64 + 1022) * EXPONENT_UNIT + s
}

/// The bit pattern of the binary64 number nearest to `i`.
pub fn float_bits(i: i64) -> (bits: u64)
    ensures
        bits == float_of(i as int),
{
    let wide: i128 = i as i128;
    if i < 0 {
        proof {
            lemma_magnitude_bound((-i) as nat);
        }
        magnitude_float((-wide) as u64) + SIGN
    } else {
        magnitude_float(i as u64)
    }
}

/// The integer that a binary64 number is, where it is one between `-2^63` and `2^63`.
pub fn integral_value(bits: u64) -> (r: Option<i128>)
    ensures
        integral(bits) is Some <==> r is Some,
        r matches Some(v) ==> integral(bits) == Some(v as int) && -0x8000_0000_0000_0000 <= v
            <= 0x8000_0000_0000_0000,
{
    let magnitude: u64 = bits % SIGN;
    let e: u64 = magnitude / EXPONENT_UNIT;
    let f: u64 = EXPONENT_UNIT + magnitude % EXPONENT_UNIT;
    let m: u128;
    if magnitude == 0 {
        m = 0;
    } else if e < 1023 || e > 1086 {
        return None;
    } else if e >= 1075 {
        let p: u64 = power_of_two(e - 1075);
        proof {
            lemma_powers();
            lemma_pow2_le((e - 1075) as nat, 11);
            assert(f * p <= 0x20_0000_0000_0000 * 0x800) by (nonlinear_arith)
                requires
                    f <= 0x20_0000_0000_0000,
                    p <= 0x800,
            ;
        }
        m = f as u128 * p as u128;
    } else {
        let p: u64 = power_of_two(1075 - e);
        proof {
            lemma_pow2_le(0, (1075 - e) as nat);
        }
        if f % p != 0 {
            return None;
        }
        m = (f / p) as u128;
    }
    if m > SIGN as u128 {
        None
    } else if bits >= SIGN {
        Some(-(m as i128))
    } else {
        Some(m as i128)
    }
}

fn power_of_two(e: u64) -> (p: u64)
    requires
        e <= 63,
    ensures
        p == pow2(e as nat),
        p > 0,
{
    let mut p: u64 = 1;
    let mut i: u64 = 0;
    proof {
        lemma_powers();
    }
    while i < e
        invariant
            i <= e <= 63,
            p == pow2(i as nat),
        decreases e - i,
    {
        proof {
            lemma_pow2_step((i + 1) as nat);
            lemma_pow2_le((i + 1) as nat, 63);
            lemma_powers();
        }
        p = p * 2;
        i = i + 1;
    }
    proof {
        lemma_pow2_le(0, e as nat);
    }
    p
}

fn number_encoding(bits: u64, i: Option<i128>) -> (buf: Vec<u8>)
    requires
        i matches Some(v) ==> -0x8000_0000_0000_0000 <= v <= 0x8000_0000_0000_0000,
    ensures
        buf@ == number_bytes(
            bits as nat,
            match i {
                Some(v) => Some(v as int),
                None => None,
            },
        ),
{
    let key: u64 = if bits > SIGN {
        u64::MAX - bits
    } else if bits == SIGN {
        SIGN
    } else {
        bits + SIGN
    };
    let tie: u64 = match i {
        None => 0,
        Some(v) => if v > i64::MAX as i128 {
            u64::MAX
        } else {
            (v + SIGN as i128) as u64
        },
    };
    let mut buf: Vec<u8> = Vec::new();
    buf.push(3);
    push_be(&mut buf, key, 8);
    push_be(&mut buf, tie, 8);
    assert(buf@ =~= seq![3u8] + be_bytes(key as nat, 8) + be_bytes(tie as nat, 8));
    buf
}

/// The bytes under which a value is indexed: they sort as the values of one
/// kind do. An array, an object or a string of more than 480 bytes has none.
pub fn encode_property_value(val: &PropValue) -> (r: Option<Vec<u8>>)
    ensures
        encoding(val@) is Some <==> r is Some,
        r matches Some(bytes) ==> encoding(val@) == Some(bytes@),
{
    match val {
        PropValue::Null => {
            let r: Vec<u8> = vec![0];
            assert(r@ =~= seq![0u8]);
            Some(r)
        },
        PropValue::Bool(b) => {
            if *b {
                let r: Vec<u8> = vec![2];
                assert(r@ =~= seq![2u8]);
                Some(r)
            } else {
                let r: Vec<u8> = vec![1];
                assert(r@ =~= seq![1u8]);
                Some(r)
            }
        },
        PropValue::Int(i) => Some(number_encoding(float_bits(*i), Some(*i as i128))),
        PropValue::UInt(u) => {
            let bits: u64 = magnitude_float(*u);
            if *u <= i64::MAX as u64 {
                Some(number_encoding(bits, Some(*u as i128)))
            } else {
                Some(number_encoding(bits, integral_value(bits)))
            }
        },
        PropValue::Float(bits) => Some(number_encoding(*bits, integral_value(*bits))),
        PropValue::Str(s) => {
            let bytes: &[u8] = s.as_str().as_bytes();
            if bytes.len() > MAX_INDEXED_STRING_LEN {
                return None;
            }
            let mut buf: Vec<u8> = Vec::new();
            buf.push(4);
            push_all(&mut buf, bytes);
            buf.push(0);
            assert(buf@ =~= seq![4u8] + encode_utf8(s@) + seq![0u8]);
            Some(buf)
        },
        PropValue::Json(_) => None,
    }
}

/// The family of values that a tag belongs to: `false` and `true` have tags of
/// their own and are comparable.
pub open spec fn family(tag: u8) -> u8 {
    if tag == 2 {
        1
    } else {
        tag
    }
}

/// The family of values that an encoding's first byte belongs to. Only values
/// of one family are comparable.
pub fn encoded_tag_family(tag: u8) -> (r: u8)
    ensures
        r == family(tag),
{
    if tag == 2 {
        1
    } else {
        tag
    }
}


/// Whether a bit pattern is that of a finite number.
pub open spec fn finite(bits: u64) -> bool {
    bits as nat % 0x8000_0000_0000_0000 < 0x7ff0_0000_0000_0000
}

/// Whether the integer `i`, as a float, compares equal to the float `bits`.
pub open spec fn equals_float(i: int, bits: u64) -> bool {
    float_of(i) == bits || (i == 0 && bits == 0x8000_0000_0000_0000)
}

/// The number that a pair of sort key and tie key was written for.
pub open spec fn number_of(key: nat, tie: nat) -> Option<Val> {
    let bits = if key < 0x8000_0000_0000_0000 {
        (0xffff_ffff_ffff_ffff - key) as u64
    } else {
        (key - 0x8000_0000_0000_0000) as u64
    };
    let i = tie - 0x8000_0000_0000_0000;
    if equals_float(i, bits) {
        Some(Val::Int(i as i64))
    } else if finite(bits) {
        Some(Val::Float(bits))
    } else {
        None
    }
}

/// The text segment of an encoded string: what follows the tag, without the
/// closing zero where there is one.
pub open spec fn text_segment(bytes: Seq<u8>) -> Seq<u8> {
    if bytes.last() == 0 {
        bytes.subrange(1, bytes.len() - 1)
    } else {
        bytes.skip(1)
    }
}

/// The value that an encoding stands for.
pub open spec fn decoding(bytes: Seq<u8>) -> Option<Val> {
    if bytes.len() == 0 {
        None
    } else if bytes[0] == 0 {
        Some(Val::Null)
    } else if bytes[0] == 1 {
        Some(Val::Bool(false))
    } else if bytes[0] == 2 {
        Some(Val::Bool(true))
    } else if bytes[0] == 3 && bytes.len() >= 17 {
        number_of(be_value(bytes.subrange(1, 9)), be_value(bytes.subrange(9, 17)))
    } else if bytes[0] == 4 && valid_utf8(text_segment(bytes)) {
        Some(Val::Str(decode_utf8(text_segment(bytes))))
    } else {
        None
    }
}

/// Calls `String::from_utf8`: the text that bytes are the UTF-8 encoding of,
/// or nothing where they are no UTF-8.
#[verifier::external_body]
fn text_of(bytes: Vec<u8>) -> (r: Option<String>)
    ensures
        r is Some <==> valid_utf8(bytes@),
        r matches Some(s) ==> s@ == decode_utf8(bytes@),
{
    String::from_utf8(bytes).ok()
}

/// The value that an encoding stands for.
pub fn decode_property_value(bytes: &[u8]) -> (r: Option<PropValue>)
    ensures
        decoding(bytes@) is Some <==> r is Some,
        r matches Some(v) ==> decoding(bytes@) == Some(v@),
{
    let n: usize = bytes.len();
    if n == 0 {
        return None;
    }
    let tag: u8 = bytes[0];
    if tag == 0 {
        Some(PropValue::Null)
    } else if tag == 1 {
        Some(PropValue::Bool(false))
    } else if tag == 2 {
        Some(PropValue::Bool(true))
    } else if tag == 3 {
        if n < 17 {
            return None;
        }
        let key: u64 = read_be(bytes, 1, 9);
        let tie: u64 = read_be(bytes, 9, 17);
        let bits: u64 = if key < SIGN {
            u64::MAX - key
        } else {
            key - SIGN
        };
        let i: i64 = (tie as i128 - SIGN as i128) as i64;
        if float_bits(i) == bits || (i == 0 && bits == SIGN) {
            Some(PropValue::Int(i))
        } else if bits % SIGN < 0x7ff0_0000_0000_0000 {
            Some(PropValue::Float(bits))
        } else {
            None
        }
    } else if tag == 4 {
        let end: usize = if bytes[n - 1] == 0 {
            n - 1
        } else {
            n
        };
        let mut segment: Vec<u8> = Vec::new();
        push_all(&mut segment, vstd::slice::slice_subrange(bytes, 1, end));
        assert(segment@ =~= text_segment(bytes@));
        match text_of(segment) {
            Some(s) => Some(PropValue::Str(s)),
            None => None,
        }
    } else {
        None
    }
}

/// A copy of a value.
pub fn copy_value(v: &PropValue) -> (r: PropValue)
    ensures
        r@ == v@,
{
    match v {
        PropValue::Null => PropValue::Null,
        PropValue::Bool(b) => PropValue::Bool(*b),
        PropValue::Int(i) => PropValue::Int(*i),
        PropValue::UInt(u) => PropValue::UInt(*u),
        PropValue::Float(bits) => PropValue::Float(*bits),
        PropValue::Str(s) => PropValue::Str(s.clone()),
        PropValue::Json(s) => PropValue::Json(s.clone()),
    }
}

/// Whether two values are exactly the same.
pub fn same_exactly(a: &PropValue, b: &PropValue) -> (r: bool)
    ensures
        r == (a@ == b@),
{
    match (a, b) {
        (PropValue::Null, PropValue::Null) => true,
        (PropValue::Bool(x), PropValue::Bool(y)) => *x == *y,
        (PropValue::Int(x), PropValue::Int(y)) => *x == *y,
        (PropValue::UInt(x), PropValue::UInt(y)) => *x == *y,
        (PropValue::Float(x), PropValue::Float(y)) => *x == *y,
        (PropValue::Str(x), PropValue::Str(y)) => *x == *y,
        (PropValue::Json(x), PropValue::Json(y)) => *x == *y,
        _ => false,
    }
}

/// Whether two values are the same to an index or a constraint.
pub fn values_agree(a: &PropValue, b: &PropValue) -> (r: bool)
    ensures
        r == same_value(a@, b@),
{
    match (encode_property_value(a), encode_property_value(b)) {
        (Some(x), Some(y)) => bytes_equal(x.as_slice(), y.as_slice()),
        (None, None) => match (a, b) {
            (PropValue::Str(s), PropValue::Str(t)) => *s == *t,
            (PropValue::Json(s), PropValue::Json(t)) => *s == *t,
            _ => false,
        },
        _ => false,
    }
}

/// Every number is encoded in 17 bytes.
pub proof fn lemma_number_length(v: Val)
    requires
        v is Int || v is UInt || v is Float,
    ensures
        encoding(v)->0.len() == 17,
{
    let e = encoding(v)->0;
    assert forall|x: nat| be_bytes(x, 8).len() == 8 by {
        lemma_be_len(x, 8);
    }
}

/// Integers sort by their encodings, those beyond `2^53` too, and no two have
/// the same one.
pub proof fn lemma_integer_order(i: i64, j: i64)
    ensures
        bytes_lt(encoding(Val::Int(i))->0, encoding(Val::Int(j))->0) <==> i < j,
        encoding(Val::Int(i)) == encoding(Val::Int(j)) <==> i == j,
{
    if i < j {
        lemma_integers_ascend(i, j);
    } else if j < i {
        lemma_integers_ascend(j, i);
        crate::keys::lemma_bytes_lt_total(encoding(Val::Int(i))->0, encoding(Val::Int(j))->0);
    }
    crate::keys::lemma_bytes_lt_irreflexive(encoding(Val::Int(i))->0);
}

proof fn lemma_integers_ascend(i: i64, j: i64)
    requires
        i < j,
    ensures
        bytes_lt(encoding(Val::Int(i))->0, encoding(Val::Int(j))->0),
{
    let (a, b) = (sort_key(float_of(i as int)), sort_key(float_of(j as int)));
    let (s, t) = (tie_key(Some(i as int)), tie_key(Some(j as int)));
    lemma_magnitude_bound((if i < 0 { -i } else { i as int }) as nat);
    lemma_magnitude_bound((if j < 0 { -j } else { j as int }) as nat);
    assert(a <= b) by {
        if i < 0 && j < 0 {
            lemma_magnitude_monotone((-j) as nat, (-i) as nat);
        } else if i >= 0 {
            lemma_magnitude_monotone(i as nat, j as nat);
        }
    }
    lemma_byte_powers();
    lemma_be_order(a, b, 8);
    lemma_be_order(s, t, 8);
    lemma_be_len(a, 8);
    lemma_be_len(b, 8);
    let (ka, kb) = (be_bytes(a, 8), be_bytes(b, 8));
    let (ts, tt) = (be_bytes(s, 8), be_bytes(t, 8));
    let head = seq![3u8];
    assert(number_bytes(float_of(i as int), Some(i as int)) =~= head + (ka + ts));
    assert(number_bytes(float_of(j as int), Some(j as int)) =~= head + (kb + tt));
    lemma_bytes_lt_prefix(head, ka + ts, kb + tt);
    if a < b {
        lemma_bytes_lt_suffix(ka, kb, ts, tt);
    } else {
        lemma_bytes_lt_prefix(ka, ts, tt);
    }
}

/// A float that is an integer is the float nearest to it.
pub(crate) proof fn lemma_integral_is_nearest(bits: u64)
    requires
        integral(bits) is Some,
        bits as nat % 0x8000_0000_0000_0000 != 0,
    ensures
        float_of(integral(bits)->0) == bits,
{
    let magnitude = bits as nat % 0x8000_0000_0000_0000;
    let e = magnitude / 0x10_0000_0000_0000;
    let f = 0x10_0000_0000_0000 + magnitude % 0x10_0000_0000_0000;
    lemma_powers();
    let v = if e >= 1075 {
        f * pow2((e - 1075) as nat)
    } else {
        f / pow2((1075 - e) as nat)
    };
    if e >= 1075 {
        let d = (e - 1075) as nat;
        let p = pow2(d);
        lemma_pow2_le(0, d);
        lemma_pow2_split(52, d);
        lemma_pow2_split(53, d);
        assert(pow2(52 + d) <= v < pow2(53 + d)) by (nonlinear_arith)
            requires
                pow2(52 + d) == 0x10_0000_0000_0000nat * p,
                pow2(53 + d) == 0x20_0000_0000_0000nat * p,
                v == f * p,
                0x10_0000_0000_0000 <= f < 0x20_0000_0000_0000,
                p > 0,
        ;
        assert(52 + d + 1 == 53 + d);
        lemma_log2_is(v, 52 + d);
        if d > 0 {
            assert(v / p == f && v % p == 0) by (nonlinear_arith)
                requires
                    v == f * p,
                    p > 0,
            ;
        } else {
            assert(f * 1 == f);
        }
    } else {
        let d = (1075 - e) as nat;
        let p = pow2(d);
        let l = (e - 1023) as nat;
        lemma_pow2_le(0, d);
        lemma_pow2_split(l, d);
        lemma_pow2_split(l + 1, d);
        assert(l + d == 52 && l + 1 + d == 53);
        assert(v * p == f) by (nonlinear_arith)
            requires
                v == f / p,
                f % p == 0,
                p > 0,
        ;
        assert(pow2(l) <= v < pow2(l + 1)) by (nonlinear_arith)
            requires
                pow2(l) * p <= v * p < pow2(l + 1) * p,
                p > 0,
        ;
        lemma_log2_is(v, l);
        assert((52 - l) as nat == d);
    }
    assert(v > 0);
    assert(magnitude_bits(v) == magnitude);
}

/// The float nearest to a number beyond `2^63` is no smaller integer.
pub(crate) proof fn lemma_large_is_no_integer(u: u64)
    requires
        u > 0x7fff_ffff_ffff_ffff,
    ensures
        integral(float_of(u as int) as u64) matches Some(v) ==> v == 0x8000_0000_0000_0000,
{
    lemma_powers();
    lemma_log2_is(u as nat, 63);
    lemma_significand(u as nat);
    lemma_magnitude_bound(u as nat);
    let bits = magnitude_bits(u as nat);
    let f = 0x10_0000_0000_0000 + bits % 0x10_0000_0000_0000;
    assert(1086 <= bits / 0x10_0000_0000_0000 <= 1087);
    assert(f * pow2(11) >= 0x8000_0000_0000_0000);
}

/// An integer and a float of the same value have the same encoding, zero and both
/// float zeros among them.
pub proof fn lemma_integer_float_unify(i: i64, bits: u64)
    requires
        integral(bits) == Some(i as int),
    ensures
        encoding(Val::Int(i)) == encoding(Val::Float(bits)),
{
    if bits as nat % 0x8000_0000_0000_0000 != 0 {
        lemma_integral_is_nearest(bits);
    }
}

/// So have an integer that is written without a sign and a float of the same value, or,
/// beyond `2^63`, the float nearest to it.
pub proof fn lemma_unsigned_float_unify(u: u64, bits: u64)
    requires
        if u <= 0x7fff_ffff_ffff_ffff {
            integral(bits) == Some(u as int)
        } else {
            bits == float_of(u as int)
        },
    ensures
        encoding(Val::UInt(u)) == encoding(Val::Float(bits)),
{
    if u <= 0x7fff_ffff_ffff_ffff {
        lemma_integer_float_unify(u as i64, bits);
    }
}

/// A number that orders bit patterns as the floats that they stand for: the magnitude,
/// with the sign.
pub open spec fn signed_magnitude(bits: u64) -> int {
    let magnitude = bits as int % 0x8000_0000_0000_0000;
    if bits >= 0x8000_0000_0000_0000 {
        -magnitude
    } else {
        magnitude
    }
}

/// Floats sort by their encodings as their values do, and two of them have one
/// encoding exactly where they compare equal.
pub proof fn lemma_float_order(a: u64, b: u64)
    ensures
        bytes_lt(encoding(Val::Float(a))->0, encoding(Val::Float(b))->0) <==> signed_magnitude(a)
            < signed_magnitude(b),
        encoding(Val::Float(a)) == encoding(Val::Float(b)) <==> signed_magnitude(a)
            == signed_magnitude(b),
{
    let (x, y) = (encoding(Val::Float(a))->0, encoding(Val::Float(b))->0);
    crate::keys::lemma_bytes_lt_irreflexive(x);
    if signed_magnitude(a) < signed_magnitude(b) {
        lemma_floats_ascend(a, b);
        crate::keys::lemma_bytes_lt_irreflexive(y);
    } else if signed_magnitude(b) < signed_magnitude(a) {
        lemma_floats_ascend(b, a);
        crate::keys::lemma_bytes_lt_total(x, y);
    } else {
        lemma_integral_range(a);
        lemma_integral_range(b);
    }
}

proof fn lemma_floats_ascend(a: u64, b: u64)
    requires
        signed_magnitude(a) < signed_magnitude(b),
    ensures
        bytes_lt(encoding(Val::Float(a))->0, encoding(Val::Float(b))->0),
{
    let (x, y) = (sort_key(a as nat), sort_key(b as nat));
    lemma_byte_powers();
    lemma_be_order(x, y, 8);
    lemma_be_len(x, 8);
    lemma_be_len(y, 8);
    let (kx, ky) = (be_bytes(x, 8), be_bytes(y, 8));
    let (ta, tb) = (be_bytes(tie_key(integral(a)), 8), be_bytes(tie_key(integral(b)), 8));
    let head = seq![3u8];
    assert(number_bytes(a as nat, integral(a)) =~= head + (kx + ta));
    assert(number_bytes(b as nat, integral(b)) =~= head + (ky + tb));
    lemma_bytes_lt_prefix(head, kx + ta, ky + tb);
    lemma_bytes_lt_suffix(kx, ky, ta, tb);
}

/// Strings sort by their encodings as their bytes do.
pub proof fn lemma_string_order(s: Seq<char>, t: Seq<char>)
    requires
        encoding(Val::Str(s)) is Some,
        encoding(Val::Str(t)) is Some,
    ensures
        bytes_lt(encoding(Val::Str(s))->0, encoding(Val::Str(t))->0) <==> bytes_lt(
            encode_utf8(s),
            encode_utf8(t),
        ),
{
    let (a, b) = (encode_utf8(s), encode_utf8(t));
    let (head, zero) = (seq![4u8], seq![0u8]);
    assert(head + a + zero =~= head + (a + zero));
    assert(head + b + zero =~= head + (b + zero));
    lemma_bytes_lt_prefix(head, a + zero, b + zero);
    lemma_closed_order(a, b);
}

proof fn lemma_closed_order(a: Seq<u8>, b: Seq<u8>)
    ensures
        bytes_lt(a + seq![0u8], b + seq![0u8]) <==> bytes_lt(a, b),
    decreases a.len(),
{
    let zero = seq![0u8];
    if a.len() == 0 {
        assert(a + zero =~= zero);
        if b.len() == 0 {
            assert(b + zero =~= zero);
            crate::keys::lemma_bytes_lt_irreflexive(zero);
        } else {
            assert((b + zero)[0] == b[0]);
            assert((b + zero).skip(1).len() > 0);
            assert(zero.skip(1).len() == 0);
            reveal_with_fuel(bytes_lt, 2);
        }
    } else if b.len() == 0 {
        assert(b + zero =~= zero);
        assert((a + zero)[0] == a[0]);
        assert(zero.skip(1).len() == 0);
        reveal_with_fuel(bytes_lt, 2);
    } else {
        assert((a + zero)[0] == a[0] && (b + zero)[0] == b[0]);
        assert((a + zero).skip(1) =~= a.skip(1) + zero);
        assert((b + zero).skip(1) =~= b.skip(1) + zero);
        lemma_closed_order(a.skip(1), b.skip(1));
    }
}

/// What an encoding gives back: a float that is an integer as that integer,
/// a number that is none and fits no `i64` as the nearest float, and anything
/// else as it was.
pub open spec fn normal(v: Val) -> Option<Val> {
    match v {
        Val::UInt(u) => if u <= 0x7fff_ffff_ffff_ffff {
            Some(Val::Int(u as i64))
        } else {
            normal_float(float_of(u as int) as u64)
        },
        Val::Float(bits) => normal_float(bits),
        _ => Some(v),
    }
}

/// What the encoding of a float gives back.
pub open spec fn normal_float(bits: u64) -> Option<Val> {
    match integral(bits) {
        Some(i) => Some(
            Val::Int(
                (if i > 0x7fff_ffff_ffff_ffff {
                    0x7fff_ffff_ffff_ffff
                } else {
                    i
                }) as i64,
            ),
        ),
        None => if finite(bits) {
            Some(Val::Float(bits))
        } else {
            None
        },
    }
}

/// Decoding an encoding gives the value back: an integer exactly, however large.
pub proof fn lemma_decode_encode(v: Val)
    requires
        encoding(v) is Some,
    ensures
        decoding(encoding(v)->0) == normal(v),
{
    match v {
        Val::Int(i) => {
            lemma_magnitude_bound((if i < 0 { -i } else { i as int }) as nat);
            lemma_number_round_trip(float_of(i as int) as u64, Some(i as int));
        },
        Val::UInt(u) => {
            lemma_magnitude_bound(u as nat);
            let bits = float_of(u as int) as u64;
            if u <= 0x7fff_ffff_ffff_ffff {
                lemma_number_round_trip(bits, Some(u as int));
            } else {
                lemma_float_round_trip(bits);
            }
        },
        Val::Float(bits) => {
            lemma_float_round_trip(bits);
        },
        Val::Str(s) => {
            let e = encoding(v)->0;
            assert(text_segment(e) =~= encode_utf8(s));
            vstd::utf8::encode_utf8_valid_utf8(s);
            vstd::utf8::encode_utf8_decode_utf8(s);
        },
        _ => {},
    }
}

proof fn lemma_number_round_trip(bits: u64, i: Option<int>)
    requires
        i matches Some(v) ==> -0x8000_0000_0000_0000 <= v <= 0x8000_0000_0000_0000,
    ensures
        decoding(number_bytes(bits as nat, i)) == number_of(sort_key(bits as nat), tie_key(i)),
        i matches Some(v) ==> v <= 0x7fff_ffff_ffff_ffff && float_of(v) == bits ==> decoding(
            number_bytes(bits as nat, i),
        ) == Some(Val::Int(v as i64)),
{
    let (key, tie) = (sort_key(bits as nat), tie_key(i));
    if let Some(v) = i {
        lemma_magnitude_bound((if v < 0 { -v } else { v }) as nat);
    }
    lemma_byte_powers();
    lemma_be_len(key, 8);
    lemma_be_len(tie, 8);
    lemma_be_round_trip(key, 8);
    lemma_be_round_trip(tie, 8);
    let e = number_bytes(bits as nat, i);
    assert(e.subrange(1, 9) =~= be_bytes(key, 8));
    assert(e.subrange(9, 17) =~= be_bytes(tie, 8));
}

proof fn lemma_float_round_trip(bits: u64)
    ensures
        decoding(number_bytes(bits as nat, integral(bits))) == normal_float(bits),
{
    let i = integral(bits);
    lemma_integral_range(bits);
    lemma_number_round_trip(bits, i);
    lemma_powers();
    match i {
        Some(v) => {
            if bits as nat % 0x8000_0000_0000_0000 != 0 {
                lemma_integral_is_nearest(bits);
                if v > 0x7fff_ffff_ffff_ffff {
                    lemma_largest();
                }
            }
        },
        None => {
            // The tie key of a number that is no integer is that of the least
            // `i64`, whose float is an integer.
            lemma_least();
        },
    }
}

proof fn lemma_largest()
    ensures
        float_of(0x7fff_ffff_ffff_ffff) == float_of(0x8000_0000_0000_0000),
{
    lemma_powers();
    vstd::arithmetic::power2::lemma2_to64();
    vstd::arithmetic::power2::lemma2_to64_rest();
    lemma_log2_is(0x7fff_ffff_ffff_ffff, 62);
    lemma_log2_is(0x8000_0000_0000_0000, 63);
    assert(half_even(0x7fff_ffff_ffff_ffff, 0x400) == 0x20_0000_0000_0000);
    assert(half_even(0x8000_0000_0000_0000, 0x800) == 0x10_0000_0000_0000);
}

proof fn lemma_least()
    ensures
        float_of(-0x8000_0000_0000_0000) == 0xc3e0_0000_0000_0000,
        integral(0xc3e0_0000_0000_0000) == Some(-0x8000_0000_0000_0000int),
{
    lemma_powers();
    vstd::arithmetic::power2::lemma2_to64();
    lemma_log2_is(0x8000_0000_0000_0000, 63);
    let bits = 0xc3e0_0000_0000_0000u64;
    let magnitude = bits as nat % 0x8000_0000_0000_0000;
    assert(magnitude == 0x43e0_0000_0000_0000);
    assert(magnitude / 0x10_0000_0000_0000 == 1086);
    assert(magnitude % 0x10_0000_0000_0000 == 0);
    assert((1086 - 1075) as nat == 11);
}

pub(crate) proof fn lemma_integral_range(bits: u64)
    ensures
        integral(bits) matches Some(v) ==> -0x8000_0000_0000_0000 <= v <= 0x8000_0000_0000_0000,
        integral(bits) matches Some(v) ==> (v < 0 ==> bits >= 0x8000_0000_0000_0000),
        bits as nat % 0x8000_0000_0000_0000 == 0 ==> integral(bits) == Some(0int),
{
    let magnitude = bits as nat % 0x8000_0000_0000_0000;
    let e = magnitude / 0x10_0000_0000_0000;
    let f = 0x10_0000_0000_0000 + magnitude % 0x10_0000_0000_0000;
    if 1075 <= e <= 1086 {
        let p = pow2((e - 1075) as nat);
        assert(f * p >= 0) by (nonlinear_arith)
            requires
                f >= 0,
                p >= 0,
        ;
    } else if 1023 <= e < 1075 {
        let p = pow2((1075 - e) as nat);
        lemma_pow2_le(0, (1075 - e) as nat);
        assert(f / p >= 0) by (nonlinear_arith)
            requires
                f >= 0,
                p > 0,
        ;
    }
}

/// Bytes that are the same for two values exactly where the values are.
pub open spec fn identity(v: Val) -> Seq<u8> {
    match v {
        Val::Str(s) if encoding(v) is None => seq![255u8, 0u8] + encode_utf8(s),
        Val::Json(s) => seq![255u8, 1u8] + encode_utf8(s),
        _ => encoding(v)->0,
    }
}

/// Values are the same to a constraint exactly where their identities are.
pub proof fn lemma_identity(a: Val, b: Val)
    ensures
        identity(a) == identity(b) <==> same_value(a, b),
{
    lemma_identity_head(a);
    lemma_identity_head(b);
    if identity(a) == identity(b) && encoding(a) is None && encoding(b) is None {
        let (x, y) = (identity(a).skip(2), identity(b).skip(2));
        match (a, b) {
            (Val::Str(s), Val::Str(t)) => {
                assert(x =~= encode_utf8(s) && y =~= encode_utf8(t));
                vstd::utf8::encode_utf8_decode_utf8(s);
                vstd::utf8::encode_utf8_decode_utf8(t);
            },
            (Val::Json(s), Val::Json(t)) => {
                assert(x =~= encode_utf8(s) && y =~= encode_utf8(t));
                vstd::utf8::encode_utf8_decode_utf8(s);
                vstd::utf8::encode_utf8_decode_utf8(t);
            },
            _ => {},
        }
    }
}

proof fn lemma_identity_head(v: Val)
    ensures
        identity(v).len() > 0,
        encoding(v) is Some <==> identity(v)[0] != 255,
        encoding(v) is None ==> identity(v).len() >= 2 && (identity(v)[1] == 0 <==> v is Str),
{
    match v {
        Val::Str(s) => {
            if encoding(v) is Some {
                assert(encoding(v)->0[0] == 4);
            } else {
                assert(identity(v)[0] == 255 && identity(v)[1] == 0);
            }
        },
        Val::Json(s) => {
            assert(identity(v)[0] == 255 && identity(v)[1] == 1);
        },
        Val::Null => {},
        Val::Bool(b) => {},
        _ => {
            assert(encoding(v)->0[0] == 3);
        },
    }
}

/// Bytes that are the same for two values exactly where the values are.
pub fn identity_bytes(v: &PropValue) -> (r: Vec<u8>)
    ensures
        r@ == identity(v@),
{
    match encode_property_value(v) {
        Some(e) => e,
        None => {
            let mut r: Vec<u8> = Vec::new();
            r.push(255);
            match v {
                PropValue::Str(s) => {
                    r.push(0);
                    push_all(&mut r, s.as_str().as_bytes());
                    assert(r@ =~= seq![255u8, 0u8] + encode_utf8(s@));
                },
                PropValue::Json(s) => {
                    r.push(1);
                    push_all(&mut r, s.as_str().as_bytes());
                    assert(r@ =~= seq![255u8, 1u8] + encode_utf8(s@));
                },
                _ => {},
            }
            r
        },
    }
}

} // verus!
