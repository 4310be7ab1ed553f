//! What a range of values means: on integers, on floats and on strings.

use vstd::prelude::*;
use vstd::utf8::encode_utf8;

use crate::catalog::{
    bound_encoding, defined, has_encoded, in_index_order, within_bounds, Catalog, Holding,
};
use crate::keys::{
    be_bytes, bytes_lt, lemma_be_order, lemma_byte_powers, lemma_bytes_lt_irreflexive,
    lemma_bytes_lt_prefix, lemma_bytes_lt_suffix, prop_key,
};
use crate::schema::{EdgeId, NodeId};
use crate::store::{label_holding, type_holding, Store};
use crate::tables::number_of_name;
use crate::value::{
    encoding, family, integral, lemma_float_order, lemma_integer_float_unify, lemma_integer_order,
    signed_magnitude, PropValue, Val,
};

verus! {

/// What the bounds `lo` and `hi` admit.
pub open spec fn between_integers(
    lo: Option<i64>,
    lo_inclusive: bool,
    hi: Option<i64>,
    hi_inclusive: bool,
    x: i64,
) -> bool {
    &&& lo matches Some(a) ==> if lo_inclusive {
        a <= x
    } else {
        a < x
    }
    &&& hi matches Some(b) ==> if hi_inclusive {
        x <= b
    } else {
        x < b
    }
}

/// An integer as a bound.
pub open spec fn integer_bound(bound: Option<PropValue>, i: Option<i64>) -> bool {
    match i {
        Some(a) => bound == Some(PropValue::Int(a)),
        None => bound is None,
    }
}

/// A value that is the integer `x`, written as an integer, with a sign or without, or as a
/// float.
pub open spec fn is_integer(v: Val, x: i64) -> bool {
    ||| v == Val::Int(x)
    ||| v matches Val::UInt(u) && u == x
    ||| v matches Val::Float(bits) && integral(bits) == Some(x as int)
}

/// What the bounds admit of floats, which are ordered by their signed magnitudes.
pub open spec fn between_floats(
    lo: Option<u64>,
    lo_inclusive: bool,
    hi: Option<u64>,
    hi_inclusive: bool,
    x: u64,
) -> bool {
    &&& lo matches Some(a) ==> if lo_inclusive {
        signed_magnitude(a) <= signed_magnitude(x)
    } else {
        signed_magnitude(a) < signed_magnitude(x)
    }
    &&& hi matches Some(b) ==> if hi_inclusive {
        signed_magnitude(x) <= signed_magnitude(b)
    } else {
        signed_magnitude(x) < signed_magnitude(b)
    }
}

/// A float as a bound.
pub open spec fn float_bound(bound: Option<PropValue>, f: Option<u64>) -> bool {
    match f {
        Some(a) => bound == Some(PropValue::Float(a)),
        None => bound is None,
    }
}

/// What the bounds admit of strings, which are ordered by their bytes.
pub open spec fn between_texts(
    lo: Option<Seq<char>>,
    lo_inclusive: bool,
    hi: Option<Seq<char>>,
    hi_inclusive: bool,
    t: Seq<char>,
) -> bool {
    &&& lo matches Some(a) ==> bytes_lt(encode_utf8(a), encode_utf8(t)) || (lo_inclusive && a == t)
    &&& hi matches Some(b) ==> bytes_lt(encode_utf8(t), encode_utf8(b)) || (hi_inclusive && b == t)
}

/// A string as a bound.
pub open spec fn text_is(bound: Option<PropValue>, t: Option<Seq<char>>) -> bool {
    match t {
        Some(a) => bound matches Some(PropValue::Str(s)) && s@ == a,
        None => bound is None,
    }
}

proof fn lemma_number_head(v: Val)
    requires
        v is Int || v is UInt || v is Float,
    ensures
        encoding(v) is Some,
        encoding(v)->0.len() > 0,
        encoding(v)->0[0] == 3,
{
}

proof fn lemma_other_head(v: Val)
    requires
        !(v is Int || v is UInt || v is Float),
        encoding(v) is Some,
    ensures
        encoding(v)->0.len() > 0,
        family(encoding(v)->0[0]) != 3,
{
}

/// Where no bound is a string, a member with a value that has an encoding is in the result
/// exactly where its encoding is within the bounds.
proof fn lemma_member_in_range(
    c: Catalog,
    h: Holding,
    keys: Seq<Seq<char>>,
    s: u32,
    name: Seq<char>,
    lo: Option<PropValue>,
    lo_inclusive: bool,
    hi: Option<PropValue>,
    hi_inclusive: bool,
    out: Seq<u64>,
    id: u64,
)
    requires
        c.matches(h, keys),
        keys.len() <= u32::MAX,
        c.ranges(h, keys, s, name, lo, lo_inclusive, hi, hi_inclusive, out),
        !(lo matches Some(v) && v is Str),
        !(hi matches Some(v) && v is Str),
        h.dom().contains((s, id)),
        h[(s, id)].dom().contains(name),
        h[(s, id)][name] !is Null,
        encoding(h[(s, id)][name]) is Some,
        c.auto || (number_of_name(keys, name) matches Some(p) && defined(c.defs@, s, p)),
    ensures
        out.contains(id) <==> within_bounds(
            encoding(h[(s, id)][name])->0,
            bound_encoding(lo),
            lo_inclusive,
            bound_encoding(hi),
            hi_inclusive,
        ),
{
    let v = h[(s, id)][name];
    let e = encoding(v)->0;
    assert(h[(s, id)].dom().contains(name));
    assert(keys.contains(name));
    let p = number_of_name(keys, name)->0;
    assert(keys[p as int] == name);
    assert(has_encoded(h, keys, s, p, e, id));
    assert(e != seq![0u8]) by {
        lemma_only_null(v);
    }
    let wanted = c.admitted(
        h,
        keys,
        s,
        p,
        bound_encoding(lo),
        lo_inclusive,
        bound_encoding(hi),
        hi_inclusive,
    );
    let values = choose|values: Seq<Seq<u8>>| #[trigger]
        crate::catalog::in_index_order(s, p, wanted, values, out);
    if out.contains(id) {
        let i = out.index_of(id);
        assert(wanted(values[i], out[i]));
        if c.marked(s, p, id) {
            assert(has_encoded(h, keys, s, p, seq![0u8], id));
        }
        assert(values[i] == e);
    }
    if within_bounds(
        e,
        bound_encoding(lo),
        lo_inclusive,
        bound_encoding(hi),
        hi_inclusive,
    ) {
        assert(c.due(h, keys, s, p, e, id));
        assert(wanted(e, id));
        let i = choose|i: int| 0 <= i < out.len() && #[trigger] values[i] == e && out[i] == id;
        assert(out[i] == id);
    }
}

proof fn lemma_only_null(v: Val)
    requires
        v !is Null,
        encoding(v) is Some,
    ensures
        encoding(v)->0 != seq![0u8],
{
    let e = encoding(v)->0;
    assert(e[0] != 0);
}

/// Only members of the scope that have the property are in a result.
proof fn lemma_only_members(
    c: Catalog,
    h: Holding,
    keys: Seq<Seq<char>>,
    s: u32,
    name: Seq<char>,
    lo: Option<PropValue>,
    lo_inclusive: bool,
    hi: Option<PropValue>,
    hi_inclusive: bool,
    out: Seq<u64>,
    id: u64,
)
    requires
        c.matches(h, keys),
        keys.len() <= u32::MAX,
        c.ranges(h, keys, s, name, lo, lo_inclusive, hi, hi_inclusive, out),
        out.contains(id),
    ensures
        h.dom().contains((s, id)),
        h[(s, id)].dom().contains(name),
{
    if !((lo matches Some(v) && v is Str) || (hi matches Some(v) && v is Str)) {
        let p = number_of_name(keys, name)->0;
        assert(keys.contains(name));
        assert(keys[p as int] == name);
        let wanted = c.admitted(
            h,
            keys,
            s,
            p,
            bound_encoding(lo),
            lo_inclusive,
            bound_encoding(hi),
            hi_inclusive,
        );
        let values = choose|values: Seq<Seq<u8>>| #[trigger]
            crate::catalog::in_index_order(s, p, wanted, values, out);
        let i = out.index_of(id);
        assert(wanted(values[i], out[i]));
        if c.marked(s, p, id) {
            assert(has_encoded(h, keys, s, p, seq![0u8], id));
        }
    }
}

proof fn lemma_encoded_integers(
    v: Val,
    x: i64,
    lo: Option<PropValue>,
    low: Option<i64>,
    lo_inclusive: bool,
    hi: Option<PropValue>,
    high: Option<i64>,
    hi_inclusive: bool,
)
    requires
        is_integer(v, x),
        integer_bound(lo, low),
        integer_bound(hi, high),
    ensures
        encoding(v) is Some,
        within_bounds(
            encoding(v)->0,
            bound_encoding(lo),
            lo_inclusive,
            bound_encoding(hi),
            hi_inclusive,
        ) <==> between_integers(low, lo_inclusive, high, hi_inclusive, x),
{
    if let Val::Float(bits) = v {
        lemma_integer_float_unify(x, bits);
    }
    assert(encoding(v) == encoding(Val::Int(x)));
    lemma_number_head(Val::Int(x));
    if let Some(a) = low {
        lemma_integer_order(a, x);
        lemma_number_head(Val::Int(a));
    }
    if let Some(b) = high {
        lemma_integer_order(x, b);
        lemma_number_head(Val::Int(b));
    }
}

/// A node of the label whose property is the integer `x` is in the result of a range with
/// integer bounds exactly where the bounds admit `x`. A node with a value that is no number
/// is not, where there is a bound, and neither is one without the label or the property.
pub proof fn lemma_nodes_in_integer_range(
    s: Store,
    label: Seq<char>,
    name: Seq<char>,
    lo: Option<PropValue>,
    low: Option<i64>,
    lo_inclusive: bool,
    hi: Option<PropValue>,
    high: Option<i64>,
    hi_inclusive: bool,
    out: Seq<NodeId>,
    id: NodeId,
)
    requires
        s.wf(),
        number_of_name(s@.labels, label) matches Some(l) && s.labels.ranges(
            label_holding(s@.nodes),
            s@.keys,
            l,
            name,
            lo,
            lo_inclusive,
            hi,
            hi_inclusive,
            out,
        ),
        integer_bound(lo, low),
        integer_bound(hi, high),
    ensures
        out.contains(id) ==> s@.carries(id, label) && s@.nodes[id].props.dom().contains(name),
        forall|x: i64|
            s@.carries(id, label) && s@.nodes[id].props.dom().contains(name)
                && #[trigger] is_integer(s@.nodes[id].props[name], x) ==> (out.contains(id)
                <==> between_integers(low, lo_inclusive, high, hi_inclusive, x)),
        out.contains(id) && (low is Some || high is Some) ==> s@.nodes[id].props[name] is Int
            || s@.nodes[id].props[name] is UInt || s@.nodes[id].props[name] is Float,
{
    let c = s@;
    let h = label_holding(c.nodes);
    let l = number_of_name(c.labels, label)->0;
    crate::laws::lemma_store_sound(s);
    if out.contains(id) {
        lemma_only_members(
            s.labels,
            h,
            c.keys,
            l,
            name,
            lo,
            lo_inclusive,
            hi,
            hi_inclusive,
            out,
            id,
        );
    }
    if c.carries(id, label) && c.nodes[id].props.dom().contains(name) {
        let v = c.nodes[id].props[name];
        assert(h.dom().contains((l, id)));
        assert(h[(l, id)] == c.nodes[id].props);
        assert forall|x: i64| #[trigger] is_integer(v, x) implies (out.contains(id)
            <==> between_integers(low, lo_inclusive, high, hi_inclusive, x)) by {
            lemma_encoded_integers(v, x, lo, low, lo_inclusive, hi, high, hi_inclusive);
            lemma_member_in_range(
                s.labels,
                h,
                c.keys,
                l,
                name,
                lo,
                lo_inclusive,
                hi,
                hi_inclusive,
                out,
                id,
            );
        }
        if out.contains(id) && (low is Some || high is Some) && !(v is Int || v is UInt
            || v is Float) {
            lemma_other_kind(
                s.labels,
                h,
                c.keys,
                l,
                name,
                lo,
                lo_inclusive,
                hi,
                hi_inclusive,
                out,
                id,
            );
        }
    }
}

/// A member whose value is no number is not in a range with a bound that is one.
proof fn lemma_other_kind(
    c: Catalog,
    h: Holding,
    keys: Seq<Seq<char>>,
    s: u32,
    name: Seq<char>,
    lo: Option<PropValue>,
    lo_inclusive: bool,
    hi: Option<PropValue>,
    hi_inclusive: bool,
    out: Seq<u64>,
    id: u64,
)
    requires
        c.matches(h, keys),
        keys.len() <= u32::MAX,
        c.ranges(h, keys, s, name, lo, lo_inclusive, hi, hi_inclusive, out),
        lo is Some || hi is Some,
        lo matches Some(v) ==> v is Int || v is UInt || v is Float,
        hi matches Some(v) ==> v is Int || v is UInt || v is Float,
        h.dom().contains((s, id)),
        h[(s, id)].dom().contains(name),
        !(h[(s, id)][name] is Int || h[(s, id)][name] is UInt || h[(s, id)][name] is Float),
    ensures
        !out.contains(id),
{
    if out.contains(id) {
        let p = number_of_name(keys, name)->0;
        assert(keys.contains(name));
        assert(keys[p as int] == name);
        let wanted = c.admitted(
            h,
            keys,
            s,
            p,
            bound_encoding(lo),
            lo_inclusive,
            bound_encoding(hi),
            hi_inclusive,
        );
        let values = choose|values: Seq<Seq<u8>>| #[trigger]
            crate::catalog::in_index_order(s, p, wanted, values, out);
        let i = out.index_of(id);
        assert(wanted(values[i], out[i]));
        if c.marked(s, p, id) {
            assert(has_encoded(h, keys, s, p, seq![0u8], id));
        }
        assert(has_encoded(h, keys, s, p, values[i], id));
        lemma_other_head(h[(s, id)][name]);
        if let Some(v) = lo {
            lemma_number_head(v@);
        }
        if let Some(v) = hi {
            lemma_number_head(v@);
        }
    }
}

/// The same of floats: a node whose property is a float is in the result of a range with
/// float bounds exactly where the bounds admit it.
pub proof fn lemma_nodes_in_float_range(
    s: Store,
    label: Seq<char>,
    name: Seq<char>,
    lo: Option<PropValue>,
    low: Option<u64>,
    lo_inclusive: bool,
    hi: Option<PropValue>,
    high: Option<u64>,
    hi_inclusive: bool,
    out: Seq<NodeId>,
    id: NodeId,
    x: u64,
)
    requires
        s.wf(),
        number_of_name(s@.labels, label) matches Some(l) && s.labels.ranges(
            label_holding(s@.nodes),
            s@.keys,
            l,
            name,
            lo,
            lo_inclusive,
            hi,
            hi_inclusive,
            out,
        ),
        float_bound(lo, low),
        float_bound(hi, high),
        s@.carries(id, label),
        s@.nodes[id].props.dom().contains(name),
        s@.nodes[id].props[name] == Val::Float(x),
    ensures
        out.contains(id) <==> between_floats(low, lo_inclusive, high, hi_inclusive, x),
{
    let c = s@;
    let h = label_holding(c.nodes);
    let l = number_of_name(c.labels, label)->0;
    crate::laws::lemma_store_sound(s);
    assert(h.dom().contains((l, id)));
    lemma_number_head(Val::Float(x));
    if let Some(a) = low {
        lemma_float_order(a, x);
        lemma_number_head(Val::Float(a));
    }
    if let Some(b) = high {
        lemma_float_order(x, b);
        lemma_number_head(Val::Float(b));
    }
    lemma_member_in_range(
        s.labels,
        h,
        c.keys,
        l,
        name,
        lo,
        lo_inclusive,
        hi,
        hi_inclusive,
        out,
        id,
    );
}

/// With string bounds, a node of the label is in the result exactly where its property is a
/// string that the bounds admit, however long it is.
pub proof fn lemma_nodes_in_text_range(
    s: Store,
    label: Seq<char>,
    name: Seq<char>,
    lo: Option<PropValue>,
    low: Option<Seq<char>>,
    lo_inclusive: bool,
    hi: Option<PropValue>,
    high: Option<Seq<char>>,
    hi_inclusive: bool,
    out: Seq<NodeId>,
    id: NodeId,
)
    requires
        s.wf(),
        number_of_name(s@.labels, label) matches Some(l) && s.labels.ranges(
            label_holding(s@.nodes),
            s@.keys,
            l,
            name,
            lo,
            lo_inclusive,
            hi,
            hi_inclusive,
            out,
        ),
        text_is(lo, low),
        text_is(hi, high),
        low is Some || high is Some,
    ensures
        out.contains(id) <==> s@.carries(id, label) && s@.nodes[id].props.dom().contains(name) && (
        s@.nodes[id].props[name] matches Val::Str(t) && between_texts(
            low,
            lo_inclusive,
            high,
            hi_inclusive,
            t,
        )),
{
    let c = s@;
    let h = label_holding(c.nodes);
    let l = number_of_name(c.labels, label)->0;
    if h.dom().contains((l, id)) && h[(l, id)].dom().contains(name) {
        if let Val::Str(t) = h[(l, id)][name] {
            if let Some(a) = low {
                lemma_same_bytes(a, t);
            }
            if let Some(b) = high {
                lemma_same_bytes(b, t);
            }
        }
    }
}

/// Strings with the same bytes are the same.
proof fn lemma_same_bytes(s: Seq<char>, t: Seq<char>)
    ensures
        encode_utf8(s) == encode_utf8(t) <==> s == t,
{
    vstd::utf8::encode_utf8_decode_utf8(s);
    vstd::utf8::encode_utf8_decode_utf8(t);
}

/// A lower integer bound that is inclusive adds to an exclusive one exactly the nodes that a
/// lookup of the bound finds.
pub proof fn lemma_inclusive_bound_adds_itself(
    s: Store,
    label: Seq<char>,
    name: Seq<char>,
    b: i64,
    with: Seq<NodeId>,
    without: Seq<NodeId>,
    id: NodeId,
)
    requires
        s.wf(),
        number_of_name(s@.labels, label) matches Some(l) && s.labels.ranges(
            label_holding(s@.nodes),
            s@.keys,
            l,
            name,
            Some(PropValue::Int(b)),
            true,
            None,
            false,
            with,
        ) && s.labels.ranges(
            label_holding(s@.nodes),
            s@.keys,
            l,
            name,
            Some(PropValue::Int(b)),
            false,
            None,
            false,
            without,
        ),
    ensures
        with.contains(id) <==> without.contains(id) || s@.finds_node(label, name, Val::Int(b), id),
        !(without.contains(id) && s@.finds_node(label, name, Val::Int(b), id)),
{
    let c = s@;
    let h = label_holding(c.nodes);
    let l = number_of_name(c.labels, label)->0;
    let bound = Some(PropValue::Int(b));
    let none: Option<PropValue> = None;
    crate::laws::lemma_store_sound(s);
    if with.contains(id) {
        lemma_only_members(s.labels, h, c.keys, l, name, bound, true, none, false, with, id);
    }
    if without.contains(id) {
        lemma_only_members(s.labels, h, c.keys, l, name, bound, false, none, false, without, id);
    }
    if c.carries(id, label) && c.nodes[id].props.dom().contains(name) {
        let v = c.nodes[id].props[name];
        assert(h.dom().contains((l, id)));
        assert(h[(l, id)] == c.nodes[id].props);
        lemma_number_head(Val::Int(b));
        if v is Int || v is UInt || v is Float {
            lemma_number_head(v);
            let e = encoding(v)->0;
            lemma_bytes_lt_irreflexive(e);
            lemma_member_in_range(
                s.labels,
                h,
                c.keys,
                l,
                name,
                bound,
                true,
                none,
                false,
                with,
                id,
            );
            lemma_member_in_range(
                s.labels,
                h,
                c.keys,
                l,
                name,
                bound,
                false,
                none,
                false,
                without,
                id,
            );
        } else {
            lemma_other_kind(s.labels, h, c.keys, l, name, bound, true, none, false, with, id);
            lemma_other_kind(
                s.labels,
                h,
                c.keys,
                l,
                name,
                bound,
                false,
                none,
                false,
                without,
                id,
            );
            if encoding(v) is Some {
                lemma_other_head(v);
            }
        }
    }
}

/// An edge of the type whose property is the integer `x`, and is indexed, is in the result
/// of a range with integer bounds exactly where `x` is between them, bounds and all.
pub proof fn lemma_edges_in_integer_range(
    s: Store,
    ty: Seq<char>,
    name: Seq<char>,
    lo: Option<PropValue>,
    low: Option<i64>,
    hi: Option<PropValue>,
    high: Option<i64>,
    out: Seq<EdgeId>,
    id: EdgeId,
)
    requires
        s.wf(),
        number_of_name(s@.types, ty) matches Some(t) && s.types.ranges(
            type_holding(s@.edges),
            s@.keys,
            t,
            name,
            lo,
            true,
            hi,
            true,
            out,
        ),
        integer_bound(lo, low),
        integer_bound(hi, high),
    ensures
        out.contains(id) ==> s@.has_type(id, ty) && s@.edges[id].props.dom().contains(name),
        forall|x: i64|
            s@.has_type(id, ty) && s@.edges[id].props.dom().contains(name) && #[trigger] is_integer(
                s@.edges[id].props[name],
                x,
            ) && (number_of_name(s@.keys, name) matches Some(p) && defined(
                s@.type_defs,
                s@.edges[id].ty,
                p,
            )) ==> (out.contains(id) <==> (low matches Some(a) ==> a <= x) && (high matches Some(b)
                ==> x <= b)),
{
    let c = s@;
    let h = type_holding(c.edges);
    let t = number_of_name(c.types, ty)->0;
    crate::laws::lemma_store_sound(s);
    if out.contains(id) {
        lemma_only_members(s.types, h, c.keys, t, name, lo, true, hi, true, out, id);
    }
    if c.has_type(id, ty) && c.edges[id].props.dom().contains(name) {
        let v = c.edges[id].props[name];
        assert(h.dom().contains((t, id)));
        assert forall|x: i64| #[trigger]
            is_integer(v, x) && (number_of_name(c.keys, name) matches Some(p) && defined(
                c.type_defs,
                c.edges[id].ty,
                p,
            )) implies (out.contains(id) <==> (low matches Some(a) ==> a <= x) && (
        high matches Some(b) ==> x <= b)) by {
            lemma_encoded_integers(v, x, lo, low, true, hi, high, true);
            lemma_member_in_range(s.types, h, c.keys, t, name, lo, true, hi, true, out, id);
        }
    }
}

/// What a range with integer bounds gives comes in ascending order of the values, and of the
/// ids where values are the same.
proof fn lemma_range_order(
    c: Catalog,
    h: Holding,
    keys: Seq<Seq<char>>,
    s: u32,
    name: Seq<char>,
    lo: Option<PropValue>,
    lo_inclusive: bool,
    hi: Option<PropValue>,
    hi_inclusive: bool,
    out: Seq<u64>,
    i: int,
    j: int,
    x: i64,
    y: i64,
)
    requires
        c.matches(h, keys),
        keys.len() <= u32::MAX,
        c.ranges(h, keys, s, name, lo, lo_inclusive, hi, hi_inclusive, out),
        !(lo matches Some(v) && v is Str),
        !(hi matches Some(v) && v is Str),
        0 <= i < j < out.len(),
        is_integer(h[(s, out[i])][name], x),
        is_integer(h[(s, out[j])][name], y),
    ensures
        x < y || (x == y && out[i] < out[j]),
{
    let p = number_of_name(keys, name)->0;
    assert(keys.contains(name));
    assert(keys[p as int] == name);
    let wanted = c.admitted(
        h,
        keys,
        s,
        p,
        bound_encoding(lo),
        lo_inclusive,
        bound_encoding(hi),
        hi_inclusive,
    );
    let values = choose|values: Seq<Seq<u8>>| #[trigger]
        in_index_order(s, p, wanted, values, out);
    assert(wanted(values[i], out[i]) && wanted(values[j], out[j]));
    let (a, b) = (h[(s, out[i])][name], h[(s, out[j])][name]);
    assert(encoding(a) == Some(values[i]) && encoding(b) == Some(values[j]));
    if let Val::Float(bits) = a {
        lemma_integer_float_unify(x, bits);
    }
    if let Val::Float(bits) = b {
        lemma_integer_float_unify(y, bits);
    }
    assert(values[i] == encoding(Val::Int(x))->0);
    assert(values[j] == encoding(Val::Int(y))->0);
    crate::value::lemma_number_length(Val::Int(x));
    crate::value::lemma_number_length(Val::Int(y));
    lemma_integer_order(x, y);
    let head = be_bytes(s as nat, 4) + be_bytes(p as nat, 4);
    let (t, u) = (be_bytes(out[i] as nat, 8), be_bytes(out[j] as nat, 8));
    assert(bytes_lt(prop_key(s, p, values[i], out[i]), prop_key(s, p, values[j], out[j])));
    assert(prop_key(s, p, values[i], out[i]) =~= head + (values[i] + t));
    assert(prop_key(s, p, values[j], out[j]) =~= head + (values[j] + u));
    lemma_bytes_lt_prefix(head, values[i] + t, values[j] + u);
    if values[i] != values[j] {
        lemma_bytes_lt_suffix(values[i], values[j], t, u);
    } else {
        lemma_bytes_lt_prefix(values[i], t, u);
        lemma_byte_powers();
        lemma_be_order(out[i] as nat, out[j] as nat, 8);
    }
}

/// The nodes in a range with integer bounds come in ascending order of their integers, and
/// of their ids where those are the same.
pub proof fn lemma_nodes_in_range_ascend(
    s: Store,
    label: Seq<char>,
    name: Seq<char>,
    lo: Option<PropValue>,
    low: Option<i64>,
    lo_inclusive: bool,
    hi: Option<PropValue>,
    high: Option<i64>,
    hi_inclusive: bool,
    out: Seq<NodeId>,
    i: int,
    j: int,
    x: i64,
    y: i64,
)
    requires
        s.wf(),
        number_of_name(s@.labels, label) matches Some(l) && s.labels.ranges(
            label_holding(s@.nodes),
            s@.keys,
            l,
            name,
            lo,
            lo_inclusive,
            hi,
            hi_inclusive,
            out,
        ),
        integer_bound(lo, low),
        integer_bound(hi, high),
        0 <= i < j < out.len(),
        is_integer(s@.nodes[out[i]].props[name], x),
        is_integer(s@.nodes[out[j]].props[name], y),
    ensures
        x < y || (x == y && out[i] < out[j]),
{
    let c = s@;
    let h = label_holding(c.nodes);
    let l = number_of_name(c.labels, label)->0;
    crate::laws::lemma_store_sound(s);
    assert(out.contains(out[i]) && out.contains(out[j]));
    lemma_only_members(
        s.labels,
        h,
        c.keys,
        l,
        name,
        lo,
        lo_inclusive,
        hi,
        hi_inclusive,
        out,
        out[i],
    );
    lemma_only_members(
        s.labels,
        h,
        c.keys,
        l,
        name,
        lo,
        lo_inclusive,
        hi,
        hi_inclusive,
        out,
        out[j],
    );
    lemma_range_order(
        s.labels,
        h,
        c.keys,
        l,
        name,
        lo,
        lo_inclusive,
        hi,
        hi_inclusive,
        out,
        i,
        j,
        x,
        y,
    );
}

/// What the bounds admit of booleans, `false` before `true`.
pub open spec fn between_bools(
    lo: Option<bool>,
    lo_inclusive: bool,
    hi: Option<bool>,
    hi_inclusive: bool,
    x: bool,
) -> bool {
    &&& lo matches Some(a) ==> (!a && x) || (lo_inclusive && a == x)
    &&& hi matches Some(b) ==> (!x && b) || (hi_inclusive && b == x)
}

/// A boolean as a bound.
pub open spec fn bool_bound(bound: Option<PropValue>, i: Option<bool>) -> bool {
    match i {
        Some(a) => bound == Some(PropValue::Bool(a)),
        None => bound is None,
    }
}

proof fn lemma_bool_order(a: bool, b: bool)
    ensures
        bytes_lt(encoding(Val::Bool(a))->0, encoding(Val::Bool(b))->0) <==> !a && b,
        encoding(Val::Bool(a)) == encoding(Val::Bool(b)) <==> a == b,
{
    let (x, y) = (encoding(Val::Bool(a))->0, encoding(Val::Bool(b))->0);
    assert(x.len() == 1 && y.len() == 1);
    assert(x[0] == (if a {
        2u8
    } else {
        1u8
    }));
    assert(y[0] == (if b {
        2u8
    } else {
        1u8
    }));
    if a == b {
        lemma_bytes_lt_irreflexive(x);
    }
}

/// A node of the label whose property is a boolean is in the result of a range with boolean
/// bounds exactly where the bounds admit it.
pub proof fn lemma_nodes_in_bool_range(
    s: Store,
    label: Seq<char>,
    name: Seq<char>,
    lo: Option<PropValue>,
    low: Option<bool>,
    lo_inclusive: bool,
    hi: Option<PropValue>,
    high: Option<bool>,
    hi_inclusive: bool,
    out: Seq<NodeId>,
    id: NodeId,
    x: bool,
)
    requires
        s.wf(),
        number_of_name(s@.labels, label) matches Some(l) && s.labels.ranges(
            label_holding(s@.nodes),
            s@.keys,
            l,
            name,
            lo,
            lo_inclusive,
            hi,
            hi_inclusive,
            out,
        ),
        bool_bound(lo, low),
        bool_bound(hi, high),
        s@.carries(id, label),
        s@.nodes[id].props.dom().contains(name),
        s@.nodes[id].props[name] == Val::Bool(x),
    ensures
        out.contains(id) <==> between_bools(low, lo_inclusive, high, hi_inclusive, x),
{
    let c = s@;
    let h = label_holding(c.nodes);
    let l = number_of_name(c.labels, label)->0;
    crate::laws::lemma_store_sound(s);
    assert(h.dom().contains((l, id)));
    assert(h[(l, id)] == c.nodes[id].props);
    lemma_member_in_range(
        s.labels,
        h,
        c.keys,
        l,
        name,
        lo,
        lo_inclusive,
        hi,
        hi_inclusive,
        out,
        id,
    );
    let e = encoding(Val::Bool(x))->0;
    assert(e.len() == 1 && (e[0] == 1 || e[0] == 2));
    assert(family(e[0]) == 1);
    if let Some(a) = low {
        lemma_bool_order(a, x);
        let f = encoding(Val::Bool(a))->0;
        assert(f.len() == 1 && (f[0] == 1 || f[0] == 2));
    }
    if let Some(b) = high {
        lemma_bool_order(x, b);
        let f = encoding(Val::Bool(b))->0;
        assert(f.len() == 1 && (f[0] == 1 || f[0] == 2));
    }
}

} // verus!
