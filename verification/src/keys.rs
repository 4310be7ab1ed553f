//! The byte layout of index keys and values. Integers are big-endian, so that
//! keys sort by them.

use vstd::prelude::*;
use vstd::utf8::encode_utf8;

use crate::error::Error;
use crate::schema::{EdgeId, LabelId, NodeId, PropKeyId, TypeId};

verus! {

/// `256` to the power `n`.
pub open spec fn byte_power(n: nat) -> nat
    decreases n,
{
    if n == 0 {
        1
    } else {
        256 * byte_power((n - 1) as nat)
    }
}

/// The `n` low-order bytes of `x`, most significant first.
pub open spec fn be_bytes(x: nat, n: nat) -> Seq<u8>
    decreases n,
{
    if n == 0 {
        Seq::empty()
    } else {
        be_bytes(x / 256, (n - 1) as nat).push((x % 256) as u8)
    }
}

/// The number whose bytes are `s`, most significant first.
pub open spec fn be_value(s: Seq<u8>) -> nat
    decreases s.len(),
{
    if s.len() == 0 {
        0
    } else {
        be_value(s.drop_last()) * 256 + s.last() as nat
    }
}

pub proof fn lemma_be_len(x: nat, n: nat)
    ensures
        be_bytes(x, n).len() == n,
    decreases n,
{
    if n > 0 {
        lemma_be_len(x / 256, (n - 1) as nat);
    }
}

/// Reading back what was written gives the number that was written.
pub proof fn lemma_be_round_trip(x: nat, n: nat)
    requires
        x < byte_power(n),
    ensures
        be_value(be_bytes(x, n)) == x,
    decreases n,
{
    if n > 0 {
        let q = x / 256;
        assert(q < byte_power((n - 1) as nat)) by (nonlinear_arith)
            requires
                x < 256 * byte_power((n - 1) as nat),
                q == x / 256,
        ;
        lemma_be_round_trip(q, (n - 1) as nat);
        let s = be_bytes(x, n);
        assert(s.drop_last() =~= be_bytes(q, (n - 1) as nat));
    }
}

/// Writing what was read gives the bytes that were read.
pub proof fn lemma_be_write_read(s: Seq<u8>)
    ensures
        be_bytes(be_value(s), s.len()) == s,
        be_value(s) < byte_power(s.len()),
    decreases s.len(),
{
    if s.len() > 0 {
        lemma_be_write_read(s.drop_last());
        let v = be_value(s);
        let h = be_value(s.drop_last());
        assert(v / 256 == h && v % 256 == s.last() as nat) by (nonlinear_arith)
            requires
                v == h * 256 + s.last() as nat,
                s.last() < 256,
        ;
        assert(be_bytes(v, s.len()) =~= s);
        assert(v < 256 * byte_power((s.len() - 1) as nat)) by (nonlinear_arith)
            requires
                v == h * 256 + s.last() as nat,
                s.last() < 256,
                h < byte_power((s.len() - 1) as nat),
        ;
    }
}

pub proof fn lemma_byte_powers()
    ensures
        byte_power(1) == 0x100,
        byte_power(2) == 0x1_0000,
        byte_power(3) == 0x100_0000,
        byte_power(4) == 0x1_0000_0000,
        byte_power(5) == 0x100_0000_0000,
        byte_power(6) == 0x1_0000_0000_0000,
        byte_power(7) == 0x100_0000_0000_0000,
        byte_power(8) == 0x1_0000_0000_0000_0000,
{
    reveal_with_fuel(byte_power, 9);
}

/// Lexicographic order of byte strings, a proper prefix first.
pub open spec fn bytes_lt(a: Seq<u8>, b: Seq<u8>) -> bool
    decreases a.len(),
{
    if b.len() == 0 {
        false
    } else if a.len() == 0 {
        true
    } else if a[0] != b[0] {
        a[0] < b[0]
    } else {
        bytes_lt(a.skip(1), b.skip(1))
    }
}

/// A byte string is not before itself.
pub proof fn lemma_bytes_lt_irreflexive(a: Seq<u8>)
    ensures
        !bytes_lt(a, a),
    decreases a.len(),
{
    if a.len() > 0 {
        lemma_bytes_lt_irreflexive(a.skip(1));
    }
}

/// Of two different byte strings exactly one is before the other.
pub proof fn lemma_bytes_lt_total(a: Seq<u8>, b: Seq<u8>)
    ensures
        a == b || bytes_lt(a, b) != bytes_lt(b, a),
    decreases a.len(),
{
    if a.len() == 0 || b.len() == 0 {
        if a.len() == 0 && b.len() == 0 {
            assert(a =~= b);
        }
    } else if a[0] == b[0] {
        lemma_bytes_lt_total(a.skip(1), b.skip(1));
        if a.skip(1) == b.skip(1) {
            assert(a.len() == a.skip(1).len() + 1 && b.len() == b.skip(1).len() + 1);
            assert forall|i: int| 0 <= i < a.len() implies a[i] == b[i] by {
                if i > 0 {
                    assert(a[i] == a.skip(1)[i - 1]);
                    assert(b[i] == b.skip(1)[i - 1]);
                }
            }
            assert(a =~= b);
        }
    }
}

/// A common prefix does not matter to the order.
pub proof fn lemma_bytes_lt_prefix(p: Seq<u8>, a: Seq<u8>, b: Seq<u8>)
    ensures
        bytes_lt(p + a, p + b) == bytes_lt(a, b),
    decreases p.len(),
{
    if p.len() == 0 {
        assert(p + a =~= a);
        assert(p + b =~= b);
    } else {
        assert((p + a).skip(1) =~= p.skip(1) + a);
        assert((p + b).skip(1) =~= p.skip(1) + b);
        lemma_bytes_lt_prefix(p.skip(1), a, b);
    }
}

/// Where two strings of one length differ, what follows them does not matter.
pub proof fn lemma_bytes_lt_suffix(a: Seq<u8>, b: Seq<u8>, s: Seq<u8>, t: Seq<u8>)
    requires
        a.len() == b.len(),
        a != b,
    ensures
        bytes_lt(a + s, b + t) == bytes_lt(a, b),
    decreases a.len(),
{
    if a.len() == 0 {
        assert(a =~= b);
    } else if a[0] == b[0] {
        assert((a + s).skip(1) =~= a.skip(1) + s);
        assert((b + t).skip(1) =~= b.skip(1) + t);
        if a.skip(1) == b.skip(1) {
            assert forall|i: int| 0 <= i < a.len() implies a[i] == b[i] by {
                if i > 0 {
                    assert(a[i] == a.skip(1)[i - 1]);
                    assert(b[i] == b.skip(1)[i - 1]);
                }
            }
            assert(a =~= b);
        }
        lemma_bytes_lt_suffix(a.skip(1), b.skip(1), s, t);
    } else {
        assert((a + s)[0] == a[0]);
        assert((b + t)[0] == b[0]);
    }
}

/// Big-endian bytes sort as their numbers do.
pub proof fn lemma_be_order(x: nat, y: nat, n: nat)
    requires
        x < byte_power(n),
        y < byte_power(n),
    ensures
        bytes_lt(be_bytes(x, n), be_bytes(y, n)) <==> x < y,
        be_bytes(x, n) == be_bytes(y, n) <==> x == y,
    decreases n,
{
    lemma_be_round_trip(x, n);
    lemma_be_round_trip(y, n);
    if n == 0 {
        lemma_bytes_lt_irreflexive(be_bytes(x, n));
    } else {
        let m = (n - 1) as nat;
        let (p, q) = (x / 256, y / 256);
        assert(p < byte_power(m) && q < byte_power(m)) by (nonlinear_arith)
            requires
                x < 256 * byte_power(m),
                y < 256 * byte_power(m),
                p == x / 256,
                q == y / 256,
        ;
        lemma_be_order(p, q, m);
        lemma_be_len(p, m);
        lemma_be_len(q, m);
        let a = be_bytes(p, m);
        let b = be_bytes(q, m);
        let s = seq![(x % 256) as u8];
        let t = seq![(y % 256) as u8];
        assert(be_bytes(x, n) =~= a + s);
        assert(be_bytes(y, n) =~= b + t);
        if p == q {
            lemma_bytes_lt_prefix(a, s, t);
            assert(bytes_lt(s, t) <==> x % 256 < y % 256) by {
                reveal_with_fuel(bytes_lt, 2);
                assert(s[0] == (x % 256) as u8 && t[0] == (y % 256) as u8);
            }
        } else {
            lemma_bytes_lt_suffix(a, b, s, t);
        }
    }
}

/// Appends the `n` low-order bytes of `x`, most significant first.
pub fn push_be(buf: &mut Vec<u8>, x: u64, n: u8)
    ensures
        final(buf)@ == old(buf)@ + be_bytes(x as nat, n as nat),
    decreases n,
{
    if n > 0 {
        let ghost before = buf@;
        push_be(buf, x / 256, n - 1);
        buf.push((x % 256) as u8);
        assert(buf@ =~= before + be_bytes(x as nat, n as nat));
    } else {
        assert(buf@ =~= buf@ + be_bytes(x as nat, 0));
    }
}

/// Appends bytes.
pub fn push_all(buf: &mut Vec<u8>, bytes: &[u8])
    ensures
        final(buf)@ == old(buf)@ + bytes@,
{
    let ghost before = buf@;
    let mut i: usize = 0;
    assert(buf@ =~= before + bytes@.take(0));
    while i < bytes.len()
        invariant
            i <= bytes@.len(),
            buf@ == before + bytes@.take(i as int),
        decreases bytes@.len() - i,
    {
        buf.push(bytes[i]);
        assert(buf@ =~= before + bytes@.take(i + 1));
        i = i + 1;
    }
    assert(bytes@.take(i as int) =~= bytes@);
}

/// Reads the big-endian number at `bytes[lo..hi]`.
pub fn read_be(bytes: &[u8], lo: usize, hi: usize) -> (x: u64)
    requires
        lo <= hi <= bytes@.len(),
        hi - lo <= 8,
    ensures
        x == be_value(bytes@.subrange(lo as int, hi as int)),
{
    let ghost part = bytes@.subrange(lo as int, hi as int);
    let mut x: u64 = 0;
    let mut i: usize = lo;
    assert(part.take(0) =~= Seq::empty());
    while i < hi
        invariant
            lo <= i <= hi <= bytes@.len(),
            hi - lo <= 8,
            part == bytes@.subrange(lo as int, hi as int),
            x == be_value(part.take(i - lo)),
        decreases hi - i,
    {
        proof {
            let k = i - lo;
            lemma_be_write_read(part.take(k + 1));
            lemma_byte_powers();
            assert(part.take(k + 1).drop_last() =~= part.take(k));
            assert(be_value(part.take(k + 1)) < byte_power((k + 1) as nat));
            assert(byte_power((k + 1) as nat) <= 0x1_0000_0000_0000_0000);
        }
        x = x * 256 + bytes[i] as u64;
        i = i + 1;
    }
    assert(part.take(hi - lo) =~= part);
    x
}

/// The `n` low-order bytes of `x`, least significant first.
pub open spec fn le_bytes(x: nat, n: nat) -> Seq<u8> {
    be_bytes(x, n).reverse()
}

/// Little-endian bytes are those of one number only, which can be read back.
pub proof fn lemma_le_bytes(x: nat, y: nat, n: nat)
    requires
        x < byte_power(n),
        y < byte_power(n),
    ensures
        le_bytes(x, n).len() == n,
        le_bytes(x, n) == le_bytes(y, n) <==> x == y,
        be_value(le_bytes(x, n).reverse()) == x,
{
    lemma_be_len(x, n);
    lemma_be_len(y, n);
    lemma_be_order(x, y, n);
    lemma_be_round_trip(x, n);
    assert(le_bytes(x, n).reverse() =~= be_bytes(x, n));
    assert(le_bytes(y, n).reverse() =~= be_bytes(y, n));
}

/// Appends the `n` low-order bytes of `x`, least significant first.
pub fn push_le(buf: &mut Vec<u8>, x: u64, n: u8)
    ensures
        final(buf)@ == old(buf)@ + le_bytes(x as nat, n as nat),
    decreases n,
{
    let ghost before = buf@;
    if n > 0 {
        proof {
            lemma_be_len((x / 256) as nat, (n - 1) as nat);
            lemma_be_len(x as nat, n as nat);
            assert(le_bytes(x as nat, n as nat) =~= seq![(x % 256) as u8] + le_bytes(
                (x / 256) as nat,
                (n - 1) as nat,
            ));
        }
        buf.push((x % 256) as u8);
        push_le(buf, x / 256, n - 1);
        assert(buf@ =~= before + le_bytes(x as nat, n as nat));
    } else {
        assert(buf@ =~= before + le_bytes(x as nat, 0));
    }
}

/// Reads the little-endian number at `bytes[lo..hi]`.
pub fn read_le(bytes: &[u8], lo: usize, hi: usize) -> (x: u64)
    requires
        lo <= hi <= bytes@.len(),
        hi - lo <= 8,
    ensures
        x == be_value(bytes@.subrange(lo as int, hi as int).reverse()),
{
    let ghost part = bytes@.subrange(lo as int, hi as int).reverse();
    let mut x: u64 = 0;
    let mut i: usize = hi;
    assert(part.take(0) =~= Seq::empty());
    while i > lo
        invariant
            lo <= i <= hi <= bytes@.len(),
            hi - lo <= 8,
            part == bytes@.subrange(lo as int, hi as int).reverse(),
            x == be_value(part.take(hi - i)),
        decreases i,
    {
        proof {
            let k = hi - i;
            lemma_be_write_read(part.take(k + 1));
            lemma_byte_powers();
            assert(part.take(k + 1).drop_last() =~= part.take(k));
            assert(part.take(k + 1).last() == bytes@[i - 1]);
            assert(be_value(part.take(k + 1)) < byte_power((k + 1) as nat));
            assert(byte_power((k + 1) as nat) <= 0x1_0000_0000_0000_0000);
        }
        i = i - 1;
        x = x * 256 + bytes[i] as u64;
    }
    assert(part.take(hi - lo) =~= part);
    x
}

/// Whether two byte strings are equal.
pub fn bytes_equal(a: &[u8], b: &[u8]) -> (r: bool)
    ensures
        r == (a@ == b@),
{
    if a.len() != b.len() {
        return false;
    }
    let mut i: usize = 0;
    while i < a.len()
        invariant
            i <= a@.len(),
            a@.len() == b@.len(),
            forall|k: int| 0 <= k < i ==> a@[k] == b@[k],
        decreases a@.len() - i,
    {
        if a[i] != b[i] {
            return false;
        }
        i = i + 1;
    }
    assert(a@ =~= b@);
    true
}

/// Whether one byte string is before another.
pub fn bytes_less(a: &[u8], b: &[u8]) -> (r: bool)
    ensures
        r == bytes_lt(a@, b@),
{
    let mut i: usize = 0;
    assert(a@.skip(0) =~= a@);
    assert(b@.skip(0) =~= b@);
    loop
        invariant
            i <= a@.len(),
            i <= b@.len(),
            bytes_lt(a@.skip(i as int), b@.skip(i as int)) == bytes_lt(a@, b@),
        decreases a@.len() - i,
    {
        if i == b.len() {
            return false;
        }
        if i == a.len() {
            return true;
        }
        proof {
            assert(a@.skip(i as int).skip(1) =~= a@.skip(i + 1));
            assert(b@.skip(i as int).skip(1) =~= b@.skip(i + 1));
        }
        if a[i] != b[i] {
            return a[i] < b[i];
        }
        i = i + 1;
    }
}

/// A registry number followed by an id.
pub open spec fn prefix_id(prefix: u32, id: u64) -> Seq<u8> {
    be_bytes(prefix as nat, 4) + be_bytes(id as nat, 8)
}

/// The 12-byte key of an entry of a label or type index.
pub fn composite_key(prefix: u32, id: u64) -> (key: [u8; 12])
    ensures
        key@ == prefix_id(prefix, id),
{
    let mut v: Vec<u8> = Vec::new();
    push_be(&mut v, prefix as u64, 4);
    push_be(&mut v, id, 8);
    proof {
        lemma_be_len(prefix as nat, 4);
        lemma_be_len(id as nat, 8);
        assert(v@ =~= prefix_id(prefix, id));
    }
    let key: [u8; 12] = [
        v[0],
        v[1],
        v[2],
        v[3],
        v[4],
        v[5],
        v[6],
        v[7],
        v[8],
        v[9],
        v[10],
        v[11],
    ];
    assert(key@ =~= v@);
    key
}

/// Index keys sort by their prefix, then by their id, so a scan over one prefix
/// meets its ids in ascending order.
pub proof fn lemma_composite_key_order(p: u32, a: u64, q: u32, b: u64)
    ensures
        bytes_lt(prefix_id(p, a), prefix_id(q, b)) <==> p < q || (p == q && a < b),
        prefix_id(p, a) == prefix_id(q, b) <==> p == q && a == b,
{
    lemma_byte_powers();
    lemma_be_order(p as nat, q as nat, 4);
    lemma_be_order(a as nat, b as nat, 8);
    lemma_be_len(p as nat, 4);
    lemma_be_len(q as nat, 4);
    let (hp, hq) = (be_bytes(p as nat, 4), be_bytes(q as nat, 4));
    let (ta, tb) = (be_bytes(a as nat, 8), be_bytes(b as nat, 8));
    if p == q {
        lemma_bytes_lt_prefix(hp, ta, tb);
    } else {
        lemma_bytes_lt_suffix(hp, hq, ta, tb);
    }
    if prefix_id(p, a) == prefix_id(q, b) {
        assert(hp =~= prefix_id(p, a).take(4));
        assert(hq =~= prefix_id(q, b).take(4));
        assert(ta =~= prefix_id(p, a).skip(4));
        assert(tb =~= prefix_id(q, b).skip(4));
    }
}

/// A registry number, a property key, an encoded value and an id.
pub open spec fn prop_key(prefix: u32, prop: PropKeyId, encoded: Seq<u8>, id: u64) -> Seq<u8> {
    be_bytes(prefix as nat, 4) + be_bytes(prop as nat, 4) + encoded + be_bytes(id as nat, 8)
}

fn build_prop_key(prefix: u32, prop: PropKeyId, encoded: &[u8], id: u64) -> (key: Vec<u8>)
    ensures
        key@ == prop_key(prefix, prop, encoded@, id),
{
    let mut key: Vec<u8> = Vec::new();
    push_be(&mut key, prefix as u64, 4);
    push_be(&mut key, prop as u64, 4);
    push_all(&mut key, encoded);
    push_be(&mut key, id, 8);
    assert(key@ =~= prop_key(prefix, prop, encoded@, id));
    key
}

/// The key of a node property index entry.
pub fn node_prop_index_key(
    label_id: LabelId,
    prop_key_id: PropKeyId,
    encoded_val: &[u8],
    node_id: NodeId,
) -> (key: Vec<u8>)
    ensures
        key@ == prop_key(label_id, prop_key_id, encoded_val@, node_id),
{
    build_prop_key(label_id, prop_key_id, encoded_val, node_id)
}

/// The key of an edge property index entry.
pub fn edge_prop_index_key(
    type_id: TypeId,
    prop_key_id: PropKeyId,
    encoded_val: &[u8],
    edge_id: EdgeId,
) -> (key: Vec<u8>)
    ensures
        key@ == prop_key(type_id, prop_key_id, encoded_val@, edge_id),
{
    build_prop_key(type_id, prop_key_id, encoded_val, edge_id)
}

/// The id of an index key whose value segment is exactly `encoded`.
pub open spec fn exact_id(key: Seq<u8>, encoded: Seq<u8>) -> Option<NodeId> {
    if key.len() >= 16 && key.subrange(8, key.len() - 8) == encoded {
        Some(be_value(key.skip(key.len() - 8)) as u64)
    } else {
        None
    }
}

/// The trailing id of a property index key, where the key's value segment
/// equals `encoded` exactly. A prefix scan also meets keys whose value only
/// starts with `encoded`; those have no id here.
pub fn exact_prop_index_id(key: &[u8], encoded: &[u8]) -> (id: Option<NodeId>)
    ensures
        id == exact_id(key@, encoded@),
{
    let n: usize = key.len();
    if n < 16 {
        return None;
    }
    let segment: &[u8] = vstd::slice::slice_subrange(key, 8, n - 8);
    if !bytes_equal(segment, encoded) {
        return None;
    }
    assert(key@.skip(n - 8) =~= key@.subrange(n - 8, n as int));
    Some(read_be(key, n - 8, n))
}

/// A lookup finds the id that a key was built with exactly under the value that
/// it was built with.
pub proof fn lemma_exact_id(prefix: u32, prop: PropKeyId, stored: Seq<u8>, id: u64, asked: Seq<u8>)
    ensures
        exact_id(prop_key(prefix, prop, stored, id), asked) == (if stored == asked {
            Some(id)
        } else {
            None
        }),
{
    let key = prop_key(prefix, prop, stored, id);
    lemma_be_len(prefix as nat, 4);
    lemma_be_len(prop as nat, 4);
    lemma_be_len(id as nat, 8);
    lemma_byte_powers();
    lemma_be_round_trip(id as nat, 8);
    assert(key.subrange(8, key.len() - 8) =~= stored);
    assert(key.skip(key.len() - 8) =~= be_bytes(id as nat, 8));
}

/// Property index keys differ where anything they are built from differs.
pub proof fn lemma_prop_key_injective(
    p1: u32,
    k1: PropKeyId,
    v1: Seq<u8>,
    i1: u64,
    p2: u32,
    k2: PropKeyId,
    v2: Seq<u8>,
    i2: u64,
)
    requires
        prop_key(p1, k1, v1, i1) == prop_key(p2, k2, v2, i2),
    ensures
        p1 == p2 && k1 == k2 && v1 == v2 && i1 == i2,
{
    let a = prop_key(p1, k1, v1, i1);
    let b = prop_key(p2, k2, v2, i2);
    lemma_byte_powers();
    lemma_be_len(p1 as nat, 4);
    lemma_be_len(p2 as nat, 4);
    lemma_be_len(k1 as nat, 4);
    lemma_be_len(k2 as nat, 4);
    lemma_be_len(i1 as nat, 8);
    lemma_be_len(i2 as nat, 8);
    assert(a.take(4) =~= be_bytes(p1 as nat, 4));
    assert(b.take(4) =~= be_bytes(p2 as nat, 4));
    assert(a.subrange(4, 8) =~= be_bytes(k1 as nat, 4));
    assert(b.subrange(4, 8) =~= be_bytes(k2 as nat, 4));
    assert(a.subrange(8, a.len() - 8) =~= v1);
    assert(b.subrange(8, b.len() - 8) =~= v2);
    assert(a.skip(a.len() - 8) =~= be_bytes(i1 as nat, 8));
    assert(b.skip(b.len() - 8) =~= be_bytes(i2 as nat, 8));
    lemma_be_order(p1 as nat, p2 as nat, 4);
    lemma_be_order(k1 as nat, k2 as nat, 4);
    lemma_be_order(i1 as nat, i2 as nat, 8);
}

/// Whether `s` lies between two bounds, byte by byte. An absent bound is no
/// bound; an inclusive one admits itself.
pub open spec fn in_range(
    s: Seq<u8>,
    lo: Option<Seq<u8>>,
    lo_inclusive: bool,
    hi: Option<Seq<u8>>,
    hi_inclusive: bool,
) -> bool {
    &&& lo matches Some(l) ==> bytes_lt(l, s) || (lo_inclusive && l == s)
    &&& hi matches Some(h) ==> bytes_lt(s, h) || (hi_inclusive && h == s)
}

/// The bytes of a bound.
pub open spec fn bound_bytes(bound: Option<&str>) -> Option<Seq<u8>> {
    match bound {
        None => None,
        Some(s) => Some(encode_utf8(s@)),
    }
}

/// Whether a stored string lies within a range, byte by byte.
pub fn str_in_range(
    s: &str,
    lo: Option<&str>,
    lo_inclusive: bool,
    hi: Option<&str>,
    hi_inclusive: bool,
) -> (r: bool)
    ensures
        r == in_range(
            encode_utf8(s@),
            bound_bytes(lo),
            lo_inclusive,
            bound_bytes(hi),
            hi_inclusive,
        ),
{
    let b: &[u8] = s.as_bytes();
    if let Some(l) = lo {
        let l: &[u8] = l.as_bytes();
        proof {
            lemma_bytes_lt_total(l@, b@);
            lemma_bytes_lt_irreflexive(b@);
        }
        if lo_inclusive {
            if bytes_less(b, l) {
                return false;
            }
        } else if !bytes_less(l, b) {
            return false;
        }
    }
    if let Some(h) = hi {
        let h: &[u8] = h.as_bytes();
        proof {
            lemma_bytes_lt_total(h@, b@);
            lemma_bytes_lt_irreflexive(b@);
        }
        if hi_inclusive {
            if bytes_less(h, b) {
                return false;
            }
        } else if !bytes_less(b, h) {
            return false;
        }
    }
    true
}

/// A posting key: label, property and term.
pub open spec fn posting_key(label: LabelId, prop: PropKeyId, term: Seq<u8>) -> Seq<u8> {
    be_bytes(label as nat, 4) + be_bytes(prop as nat, 4) + term
}

/// The key of the postings of a term.
pub fn fts_postings_key(label_id: LabelId, prop_key_id: PropKeyId, term: &str) -> (key: Vec<u8>)
    ensures
        key@ == posting_key(label_id, prop_key_id, encode_utf8(term@)),
{
    let mut key: Vec<u8> = Vec::new();
    push_be(&mut key, label_id as u64, 4);
    push_be(&mut key, prop_key_id as u64, 4);
    push_all(&mut key, term.as_bytes());
    assert(key@ =~= posting_key(label_id, prop_key_id, encode_utf8(term@)));
    key
}

/// A posting: a node and how often the term occurs in it.
pub open spec fn posting_val(node: NodeId, frequency: u32) -> Seq<u8> {
    be_bytes(node as nat, 8) + be_bytes(frequency as nat, 4)
}

/// The 12-byte value of a posting.
pub fn fts_posting_val(node_id: NodeId, frequency: u32) -> (val: [u8; 12])
    ensures
        val@ == posting_val(node_id, frequency),
{
    let mut v: Vec<u8> = Vec::new();
    push_be(&mut v, node_id, 8);
    push_be(&mut v, frequency as u64, 4);
    proof {
        lemma_be_len(node_id as nat, 8);
        lemma_be_len(frequency as nat, 4);
        assert(v@ =~= posting_val(node_id, frequency));
    }
    let val: [u8; 12] = [
        v[0],
        v[1],
        v[2],
        v[3],
        v[4],
        v[5],
        v[6],
        v[7],
        v[8],
        v[9],
        v[10],
        v[11],
    ];
    assert(val@ =~= v@);
    val
}

/// Reads a posting back.
pub fn parse_fts_posting_val(bytes: &[u8]) -> (r: Result<(NodeId, u32), Error>)
    ensures
        bytes@.len() != 12 ==> r == Err::<(NodeId, u32), Error>(
            Error::Corrupt("fts posting value must be 12 bytes"),
        ),
        bytes@.len() == 12 ==> (r matches Ok(p) && posting_val(p.0, p.1) == bytes@),
{
    if bytes.len() != 12 {
        return Err(Error::Corrupt("fts posting value must be 12 bytes"));
    }
    proof {
        lemma_byte_powers();
        lemma_be_write_read(bytes@.subrange(0, 8));
        lemma_be_write_read(bytes@.subrange(8, 12));
        assert(bytes@ =~= bytes@.subrange(0, 8) + bytes@.subrange(8, 12));
    }
    let node: NodeId = read_be(bytes, 0, 8);
    let frequency: u64 = read_be(bytes, 8, 12);
    Ok((node, frequency as u32))
}

/// Different postings have different values, so what is read back is what was written.
pub proof fn lemma_posting_val_injective(n1: NodeId, f1: u32, n2: NodeId, f2: u32)
    requires
        posting_val(n1, f1) == posting_val(n2, f2),
    ensures
        n1 == n2 && f1 == f2,
{
    let a = posting_val(n1, f1);
    let b = posting_val(n2, f2);
    lemma_byte_powers();
    lemma_be_len(n1 as nat, 8);
    lemma_be_len(n2 as nat, 8);
    assert(a.take(8) =~= be_bytes(n1 as nat, 8));
    assert(b.take(8) =~= be_bytes(n2 as nat, 8));
    assert(a.skip(8) =~= be_bytes(f1 as nat, 4));
    assert(b.skip(8) =~= be_bytes(f2 as nat, 4));
    lemma_be_order(n1 as nat, n2 as nat, 8);
    lemma_be_order(f1 as nat, f2 as nat, 4);
}

/// A document key: label, property and node.
pub open spec fn doc_key(label: LabelId, prop: PropKeyId, node: NodeId) -> Seq<u8> {
    be_bytes(label as nat, 4) + be_bytes(prop as nat, 4) + be_bytes(node as nat, 8)
}

/// The 16-byte key of an indexed document.
pub fn fts_doc_key(label_id: LabelId, prop_key_id: PropKeyId, node_id: NodeId) -> (key: [u8; 16])
    ensures
        key@ == doc_key(label_id, prop_key_id, node_id),
{
    let mut v: Vec<u8> = Vec::new();
    push_be(&mut v, label_id as u64, 4);
    push_be(&mut v, prop_key_id as u64, 4);
    push_be(&mut v, node_id, 8);
    proof {
        lemma_be_len(label_id as nat, 4);
        lemma_be_len(prop_key_id as nat, 4);
        lemma_be_len(node_id as nat, 8);
        assert(v@ =~= doc_key(label_id, prop_key_id, node_id));
    }
    let key: [u8; 16] = [
        v[0],
        v[1],
        v[2],
        v[3],
        v[4],
        v[5],
        v[6],
        v[7],
        v[8],
        v[9],
        v[10],
        v[11],
        v[12],
        v[13],
        v[14],
        v[15],
    ];
    assert(key@ =~= v@);
    key
}

/// Reads a document length.
pub fn parse_fts_doc_val(bytes: &[u8]) -> (r: Result<u32, Error>)
    ensures
        bytes@.len() != 4 ==> r == Err::<u32, Error>(Error::Corrupt("fts doc val must be 4 bytes")),
        bytes@.len() == 4 ==> (r matches Ok(x) && be_bytes(x as nat, 4) == bytes@),
{
    if bytes.len() != 4 {
        return Err(Error::Corrupt("fts doc val must be 4 bytes"));
    }
    proof {
        lemma_byte_powers();
        lemma_be_write_read(bytes@);
        assert(bytes@.subrange(0, 4) =~= bytes@);
    }
    Ok(read_be(bytes, 0, 4) as u32)
}

/// The decimal digits of `n`.
pub open spec fn decimal(n: nat) -> Seq<char>
    decreases n,
{
    if n < 10 {
        seq![digit(n)]
    } else {
        decimal(n / 10).push(digit(n % 10))
    }
}

/// The character of a digit.
pub open spec fn digit(d: nat) -> char {
    ('0' as u32 + d) as char
}

fn digit_str(d: u32) -> (s: &'static str)
    requires
        d < 10,
    ensures
        s@ == seq![digit(d as nat)],
{
    proof {
        reveal_strlit("0");
        reveal_strlit("1");
        reveal_strlit("2");
        reveal_strlit("3");
        reveal_strlit("4");
        reveal_strlit("5");
        reveal_strlit("6");
        reveal_strlit("7");
        reveal_strlit("8");
        reveal_strlit("9");
    }
    let s: &'static str = match d {
        0 => "0",
        1 => "1",
        2 => "2",
        3 => "3",
        4 => "4",
        5 => "5",
        6 => "6",
        7 => "7",
        8 => "8",
        _ => "9",
    };
    assert(s@ =~= seq![digit(d as nat)]);
    s
}

/// Appends a number in decimal.
pub fn append_decimal(s: &mut String, n: u32)
    ensures
        final(s)@ == old(s)@ + decimal(n as nat),
    decreases n,
{
    let ghost before = s@;
    if n >= 10 {
        append_decimal(s, n / 10);
        s.append(digit_str(n % 10));
        assert(s@ =~= before + decimal(n as nat));
    } else {
        s.append(digit_str(n));
    }
}

/// The text `head`, a label, `:p:`, a property key and `tail`.
pub open spec fn pair_name(head: Seq<char>, label: u32, prop: u32, tail: Seq<char>) -> Seq<char> {
    head + decimal(label as nat) + ":p:"@ + decimal(prop as nat) + tail
}

/// Builds the name of a metadata entry about a label or type and a property.
pub fn build_pair_name(head: &str, label: u32, prop: u32, tail: &str) -> (s: String)
    ensures
        s@ == pair_name(head@, label, prop, tail@),
{
    let mut s: String = String::new();
    s.append(head);
    append_decimal(&mut s, label);
    s.append(":p:");
    append_decimal(&mut s, prop);
    s.append(tail);
    assert(s@ =~= pair_name(head@, label, prop, tail@));
    s
}

/// The name under which the number of indexed documents is kept.
pub fn fts_stats_n_key(label_id: LabelId, prop_key_id: PropKeyId) -> (s: String)
    ensures
        s@ == pair_name("fts_stats:node:l:"@, label_id, prop_key_id, ":N"@),
{
    build_pair_name("fts_stats:node:l:", label_id, prop_key_id, ":N")
}

/// The name under which the sum of the document lengths is kept.
pub fn fts_stats_sum_dl_key(label_id: LabelId, prop_key_id: PropKeyId) -> (s: String)
    ensures
        s@ == pair_name("fts_stats:node:l:"@, label_id, prop_key_id, ":sum_dl"@),
{
    build_pair_name("fts_stats:node:l:", label_id, prop_key_id, ":sum_dl")
}

} // verus!
