//! What writes and queries mean, in terms of the records before and after.

use vstd::prelude::*;

use crate::catalog::{
    def_place, defined, defined_at, has_def, has_encoded, has_value, lemma_def_place,
    lemma_null_encoding, share, with_def, without_def, IndexDef,
};
use crate::graph_queries::{first_missing, groups, missing_from, opens, value_in};
use crate::keys::{
    be_bytes, bytes_lt, lemma_be_len, lemma_be_order, lemma_byte_powers,
    lemma_bytes_lt_irreflexive,
};
use crate::laws::{
    lemma_listed_number, lemma_number_of_list, lemma_store_sound, lemma_string_lookups_are_exact,
    lemma_with_names,
};
use crate::range_laws::is_integer;
use crate::schema::{EdgeId, NodeId};
use crate::store::{breached, label_holding, type_holding, Content, Store};
use crate::store_edges::{DirectedNeighborEntry, NeighborEntry};
use crate::store_queries::{directed, with_direction};
use crate::tables::{lemma_with_name, number_of_name, with_name};
use crate::value::{
    encoding, float_of, integral, lemma_integer_float_unify, lemma_integer_order,
    lemma_integral_range, lemma_large_is_no_integer, lemma_magnitude_bound, number_bytes,
    same_value, tie_key, PropValue, Val,
};

verus! {

/// Where the constraints hold, no two nodes with a label have the same value in a property
/// that a unique constraint on it is on, and every one has a value in a property that a
/// required one is on.
pub proof fn lemma_node_constraints_mean(
    c: Content,
    label: Seq<char>,
    property: Seq<char>,
    a: NodeId,
    b: NodeId,
)
    requires
        c.sound(),
        c.constraints_hold(),
        c.carries(a, label),
        c.carries(b, label),
    ensures
        c.label_indexed(label, property, 1) && a != b
            && c.nodes[a].props.dom().contains(property) && c.nodes[b].props.dom().contains(property)
            && c.nodes[a].props[property] !is Null ==> !same_value(
            c.nodes[a].props[property],
            c.nodes[b].props[property],
        ),
        c.label_indexed(label, property, 2) ==> c.nodes[a].props.dom().contains(property)
            && c.nodes[a].props[property] !is Null,
{
    let h = label_holding(c.nodes);
    let l = number_of_name(c.labels, label)->0;
    assert(h.dom().contains((l, a)) && h.dom().contains((l, b)));
    let p = number_of_name(c.keys, property)->0;
    lemma_null_encoding(c.nodes[a].props[property]);
    lemma_null_encoding(c.nodes[b].props[property]);
    if c.label_indexed(label, property, 1) && a != b && c.nodes[a].props.dom().contains(property)
        && c.nodes[b].props.dom().contains(property) && c.nodes[a].props[property] !is Null
        && same_value(c.nodes[a].props[property], c.nodes[b].props[property]) {
        let d = IndexDef { scope: l, prop: p, flags: 1 };
        let i = c.label_defs.index_of(d);
        assert(c.label_defs[i] == d);
        assert(share(h, l, property, a, b));
    }
    if c.label_indexed(label, property, 2) {
        let d = IndexDef { scope: l, prop: p, flags: 2 };
        let i = c.label_defs.index_of(d);
        assert(c.label_defs[i] == d);
    }
}

/// Where the constraints hold, no two edges of a type have the same value in a property
/// that a unique constraint on it is on, and every one has a value in a property that a
/// required one is on.
pub proof fn lemma_edge_constraints_mean(
    c: Content,
    ty: Seq<char>,
    property: Seq<char>,
    a: EdgeId,
    b: EdgeId,
)
    requires
        c.sound(),
        c.constraints_hold(),
        c.has_type(a, ty),
        c.has_type(b, ty),
    ensures
        c.type_indexed(ty, property, 1) && a != b && c.edges[a].props.dom().contains(property)
            && c.edges[b].props.dom().contains(property) && c.edges[a].props[property] !is Null
            ==> !same_value(c.edges[a].props[property], c.edges[b].props[property]),
        c.type_indexed(ty, property, 2) ==> c.edges[a].props.dom().contains(property)
            && c.edges[a].props[property] !is Null,
{
    let h = type_holding(c.edges);
    let t = number_of_name(c.types, ty)->0;
    assert(h.dom().contains((t, a)) && h.dom().contains((t, b)));
    let p = number_of_name(c.keys, property)->0;
    lemma_null_encoding(c.edges[a].props[property]);
    lemma_null_encoding(c.edges[b].props[property]);
    if c.type_indexed(ty, property, 1) && a != b && c.edges[a].props.dom().contains(property)
        && c.edges[b].props.dom().contains(property) && c.edges[a].props[property] !is Null
        && same_value(c.edges[a].props[property], c.edges[b].props[property]) {
        let d = IndexDef { scope: t, prop: p, flags: 1 };
        let i = c.type_defs.index_of(d);
        assert(c.type_defs[i] == d);
        assert(share(h, t, property, a, b));
    }
    if c.type_indexed(ty, property, 2) {
        let d = IndexDef { scope: t, prop: p, flags: 2 };
        let i = c.type_defs.index_of(d);
        assert(c.type_defs[i] == d);
    }
}

/// Whether a node with these properties cannot carry a label because of a property: it has
/// no value there and one is required, or another node that carries the label has the same
/// value and it is to be unique.
pub open spec fn node_conflicts(
    c: Content,
    label: Seq<char>,
    property: Seq<char>,
    id: NodeId,
    props: Map<Seq<char>, Val>,
) -> bool {
    let valued = props.dom().contains(property) && props[property] !is Null;
    ||| c.label_indexed(label, property, 2) && !valued
    ||| c.label_indexed(label, property, 1) && valued && exists|x: NodeId|
        x != id && #[trigger] c.carries(x, label) && c.nodes[x].props.dom().contains(property)
            && same_value(c.nodes[x].props[property], props[property])
}

/// Whether an edge with these properties cannot have a type because of a property.
pub open spec fn edge_conflicts(
    c: Content,
    ty: Seq<char>,
    property: Seq<char>,
    id: EdgeId,
    props: Map<Seq<char>, Val>,
) -> bool {
    let valued = props.dom().contains(property) && props[property] !is Null;
    ||| c.type_indexed(ty, property, 2) && !valued
    ||| c.type_indexed(ty, property, 1) && valued && exists|x: EdgeId|
        x != id && #[trigger] c.has_type(x, ty) && c.edges[x].props.dom().contains(property)
            && same_value(c.edges[x].props[property], props[property])
}

/// A write of a node is refused under a label exactly where some property conflicts.
pub proof fn lemma_refused_node_conflicts(
    c: Content,
    label: Seq<char>,
    id: NodeId,
    props: Map<Seq<char>, Val>,
)
    requires
        c.sound(),
    ensures
        c.refuses_label(label, id, props) <==> exists|property: Seq<char>| #[trigger]
            node_conflicts(c, label, property, id, props),
{
    let h = label_holding(c.nodes);
    let (keys, defs) = (c.keys, c.label_defs);
    if c.refuses_label(label, id, props) {
        let l = number_of_name(c.labels, label)->0;
        let i = choose|i: int| #[trigger] breached(h, keys, defs, l, id, props, i);
        let property = keys[defs[i].prop as int];
        lemma_number(keys, defs[i].prop as int);
        assert(defs.contains(defs[i]));
        assert(defs[i] == IndexDef { scope: l, prop: defs[i].prop, flags: defs[i].flags });
        assert(c.label_indexed(label, property, defs[i].flags));
        if defs[i].flags == 1 {
            let x = choose|x: u64| x != id && #[trigger] has_value(h, l, x, property, props[property]);
            assert(c.carries(x, label));
        }
        assert(node_conflicts(c, label, property, id, props));
    }
    if exists|property: Seq<char>| #[trigger] node_conflicts(c, label, property, id, props) {
        let property = choose|property: Seq<char>| #[trigger]
            node_conflicts(c, label, property, id, props);
        let l = number_of_name(c.labels, label)->0;
        let p = number_of_name(keys, property)->0;
        let flags = if c.label_indexed(label, property, 2) && (!props.dom().contains(property)
            || props[property] is Null) {
            2u8
        } else {
            1u8
        };
        let d = IndexDef { scope: l, prop: p, flags };
        assert(defs.contains(d));
        let i = defs.index_of(d);
        assert(defs[i] == d);
        assert(keys[p as int] == property);
        if flags == 1 {
            let x = choose|x: NodeId|
                x != id && #[trigger] c.carries(x, label) && c.nodes[x].props.dom().contains(
                    property,
                ) && same_value(c.nodes[x].props[property], props[property]);
            assert(has_value(h, l, x, property, props[property]));
        }
        assert(breached(h, keys, defs, l, id, props, i));
    }
}

/// A write of an edge is refused exactly where some property conflicts.
pub proof fn lemma_refused_edge_conflicts(
    c: Content,
    ty: Seq<char>,
    id: EdgeId,
    props: Map<Seq<char>, Val>,
)
    requires
        c.sound(),
    ensures
        c.refuses_edge(ty, id, props) <==> exists|property: Seq<char>| #[trigger]
            edge_conflicts(c, ty, property, id, props),
{
    let h = type_holding(c.edges);
    let (keys, defs) = (c.keys, c.type_defs);
    if c.refuses_edge(ty, id, props) {
        let t = number_of_name(c.types, ty)->0;
        let i = choose|i: int| #[trigger] breached(h, keys, defs, t, id, props, i);
        let property = keys[defs[i].prop as int];
        lemma_number(keys, defs[i].prop as int);
        assert(defs.contains(defs[i]));
        assert(defs[i] == IndexDef { scope: t, prop: defs[i].prop, flags: defs[i].flags });
        assert(c.type_indexed(ty, property, defs[i].flags));
        if defs[i].flags == 1 {
            let x = choose|x: u64| x != id && #[trigger] has_value(h, t, x, property, props[property]);
            assert(c.has_type(x, ty));
        }
        assert(edge_conflicts(c, ty, property, id, props));
    }
    if exists|property: Seq<char>| #[trigger] edge_conflicts(c, ty, property, id, props) {
        let property = choose|property: Seq<char>| #[trigger]
            edge_conflicts(c, ty, property, id, props);
        let t = number_of_name(c.types, ty)->0;
        let p = number_of_name(keys, property)->0;
        let flags = if c.type_indexed(ty, property, 2) && (!props.dom().contains(property)
            || props[property] is Null) {
            2u8
        } else {
            1u8
        };
        let d = IndexDef { scope: t, prop: p, flags };
        assert(defs.contains(d));
        let i = defs.index_of(d);
        assert(defs[i] == d);
        assert(keys[p as int] == property);
        if flags == 1 {
            let x = choose|x: EdgeId|
                x != id && #[trigger] c.has_type(x, ty) && c.edges[x].props.dom().contains(property)
                    && same_value(c.edges[x].props[property], props[property]);
            assert(has_value(h, t, x, property, props[property]));
        }
        assert(breached(h, keys, defs, t, id, props, i));
    }
}

proof fn lemma_number(names: Seq<Seq<char>>, i: int)
    requires
        names.no_duplicates(),
        names.len() <= u32::MAX,
        0 <= i < names.len(),
    ensures
        number_of_name(names, names[i]) == Some(i as u32),
{
    assert(names.contains(names[i]));
}

/// A node that was added has the properties that were given, and carries exactly the
/// labels that were given.
pub proof fn lemma_added_node_carries(
    c: Content,
    labels: Seq<Seq<char>>,
    props: Map<Seq<char>, Val>,
    now: Content,
    label: Seq<char>,
    other: NodeId,
)
    requires
        c.sound(),
        c.labels.len() + labels.len() <= u32::MAX,
        c.with_node(labels, props, now),
    ensures
        now.carries(c.next_node, label) <==> labels.contains(label),
        now.nodes[c.next_node].props == props,
        other != c.next_node ==> (now.nodes.dom().contains(other) <==> c.nodes.dom().contains(
            other,
        )),
        c.nodes.dom().contains(other) ==> now.nodes[other] == c.nodes[other],
        c.nodes.dom().contains(other) && c.carries(other, label) ==> now.carries(other, label),
        now.edges == c.edges,
{
    lemma_with_names(c.labels, labels);
    if labels.contains(label) {
        let k = labels.index_of(label);
        lemma_listed_number(c.labels, labels, k);
    }
    if now.carries(c.next_node, label) {
        let l = number_of_name(now.labels, label)->0;
        let k = lemma_number_of_list(c.labels, labels, l);
        assert(now.labels[l as int] == label);
        assert(now.labels[l as int] == labels[k]);
    }
    if c.carries(other, label) {
        lemma_with_names(c.labels, labels);
    }
}

/// An edge that was added leads from the one node to the other, has exactly the type that
/// was given, and the properties; the other edges are as they were.
pub proof fn lemma_added_edge_joins(
    c: Content,
    src: NodeId,
    dst: NodeId,
    ty: Seq<char>,
    props: Map<Seq<char>, Val>,
    name: Seq<char>,
    other: EdgeId,
)
    requires
        c.sound(),
        c.types.len() < u32::MAX,
    ensures
        ({
            let now = c.with_edge(src, dst, ty, props);
            &&& now.edges.dom().contains(c.next_edge)
            &&& now.edges[c.next_edge].src == src
            &&& now.edges[c.next_edge].dst == dst
            &&& now.edges[c.next_edge].props == props
            &&& now.has_type(c.next_edge, name) <==> name == ty
            &&& other != c.next_edge ==> (now.edges.dom().contains(other)
                <==> c.edges.dom().contains(other))
            &&& c.edges.dom().contains(other) ==> now.edges[other] == c.edges[other] && (
            c.has_type(other, name) <==> now.has_type(other, name))
            &&& now.nodes == c.nodes
        }),
{
    let now = c.with_edge(src, dst, ty, props);
    lemma_with_name(c.types, ty, ty);
    lemma_with_name(c.types, ty, name);
    assert(now.types.contains(ty)) by {
        if !c.types.contains(ty) {
            assert(now.types[c.types.len() as int] == ty);
        }
    }
    let t = number_of_name(now.types, ty)->0;
    assert(now.types[t as int] == ty);
    if c.edges.dom().contains(other) && now.has_type(other, name) && !c.has_type(other, name) {
        let k = now.types.index_of(name);
        assert(now.types[k] == name);
        assert(k == c.edges[other].ty);
        assert(c.types[k] == name);
        lemma_number(c.types, k);
    }
}

/// The first id that is missing is missing, and none before it is; there is none exactly
/// where all are there.
pub proof fn lemma_first_missing(there: Set<u64>, ids: Seq<u64>)
    ensures
        first_missing(there, ids) is None <==> forall|i: int|
            0 <= i < ids.len() ==> there.contains(#[trigger] ids[i]),
        first_missing(there, ids) matches Some(id) ==> !there.contains(id) && exists|i: int|
            0 <= i < ids.len() && #[trigger] ids[i] == id && forall|j: int|
                0 <= j < i ==> there.contains(#[trigger] ids[j]),
{
    lemma_missing_from(there, ids, 0);
}

proof fn lemma_missing_from(there: Set<u64>, ids: Seq<u64>, i: int)
    requires
        0 <= i <= ids.len(),
        forall|j: int| 0 <= j < i ==> there.contains(#[trigger] ids[j]),
    ensures
        missing_from(there, ids, i) is None <==> forall|j: int|
            0 <= j < ids.len() ==> there.contains(#[trigger] ids[j]),
        missing_from(there, ids, i) matches Some(id) ==> !there.contains(id) && exists|k: int|
            0 <= k < ids.len() && #[trigger] ids[k] == id && forall|j: int|
                0 <= j < k ==> there.contains(#[trigger] ids[j]),
    decreases ids.len() - i,
{
    if i < ids.len() {
        if there.contains(ids[i]) {
            lemma_missing_from(there, ids, i + 1);
        } else {
            assert(ids[i] == ids[i]);
        }
    }
}

/// Two records have the same code exactly where they have the same value, and a code is new
/// exactly where it is one more than all before it.
pub proof fn lemma_codes_group_values(
    codes: Seq<u32>,
    values: Seq<PropValue>,
    given: Seq<Val>,
    i: int,
    j: int,
)
    requires
        groups(codes, values),
        given.len() == codes.len(),
        forall|k: int| 0 <= k < codes.len() ==> values[(#[trigger] codes[k]) as int]@ == given[k],
        0 <= i < codes.len(),
        0 <= j < codes.len(),
    ensures
        codes[i] == codes[j] <==> given[i] == given[j],
        codes[i] > 0 ==> exists|k: int| 0 <= k < i && #[trigger] codes[k] == codes[i] - 1,
        codes[0] == 0,
{
    if given[i] == given[j] && codes[i] != codes[j] {
        let (a, b) = if codes[i] < codes[j] {
            (codes[i] as int, codes[j] as int)
        } else {
            (codes[j] as int, codes[i] as int)
        };
        assert(values[a]@ != values[b]@);
    }
    if codes[i] > 0 {
        lemma_code_before(codes, values, i, codes[i] - 1);
    }
    if codes[0] > 0 {
        lemma_code_before(codes, values, 0, codes[0] - 1);
    }
}

proof fn lemma_code_before(codes: Seq<u32>, values: Seq<PropValue>, i: int, c: int) -> (k: int)
    requires
        groups(codes, values),
        0 <= i < codes.len(),
        0 <= c < codes[i],
    ensures
        0 <= k < i,
        codes[k] == c,
{
    assert(codes[i] < values.len());
    assert(opens(codes, c));
    let k = choose|k: int|
        0 <= k < codes.len() && #[trigger] codes[k] == c && forall|j: int|
            0 <= j < k ==> (#[trigger] codes[j]) < c;
    if i < k {
        assert(codes[i] < c);
    }
    k
}

/// The entries at a node are its edges: one that leaves it is listed once as outgoing with
/// the node that it leads to, one that enters it once as incoming with the node that it
/// comes from, so that a loop is listed twice.
pub proof fn lemma_entries_are_edges(
    c: Content,
    node: NodeId,
    out: Seq<DirectedNeighborEntry>,
    e: EdgeId,
    outgoing: bool,
)
    requires
        c.lists_all_neighbors(node, out),
    ensures
        (exists|i: int| 0 <= i < out.len() && entry_is(#[trigger] out[i], e, outgoing))
            <==> c.edges.dom().contains(e) && (if outgoing {
            c.edges[e].src == node
        } else {
            c.edges[e].dst == node
        }),
        forall|i: int|
            0 <= i < out.len() && entry_is(#[trigger] out[i], e, outgoing) ==> out[i].node == (
            if outgoing {
                c.edges[e].dst
            } else {
                c.edges[e].src
            }) && out[i].edge_type == c.edges[e].ty,
        forall|i: int, j: int|
            0 <= i < j < out.len() && entry_is(#[trigger] out[i], e, outgoing)
                ==> !entry_is(#[trigger] out[j], e, outgoing),
{
    let (a, b) = choose|a: Seq<NeighborEntry>, b: Seq<NeighborEntry>|
        {
            &&& #[trigger] c.lists_neighbors(node, true, a)
            &&& #[trigger] c.lists_neighbors(node, false, b)
            &&& out == with_direction(a, true) + with_direction(b, false)
        };
    let n = a.len() as int;
    assert(out.len() == a.len() + b.len());
    assert forall|i: int| 0 <= i < n implies #[trigger] out[i] == directed(a[i], true) by {}
    assert forall|i: int| n <= i < out.len() implies #[trigger] out[i] == directed(
        b[i - n],
        false,
    ) by {}
    assert forall|i: int| 0 <= i < out.len() && entry_is(#[trigger] out[i], e, outgoing) implies (
    outgoing <==> i < n) && c.neighbors(
        if outgoing {
            a[i]
        } else {
            b[i - n]
        },
        node,
        outgoing,
    ) by {
        if i < n {
            assert(out[i] == directed(a[i], true));
            assert(c.neighbors(a[i], node, true));
        } else {
            assert(out[i] == directed(b[i - n], false));
            assert(c.neighbors(b[i - n], node, false));
        }
    }
    if c.edges.dom().contains(e) && outgoing && c.edges[e].src == node {
        let i = choose|i: int| 0 <= i < a.len() && (#[trigger] a[i]).edge == e;
        assert(entry_is(out[i], e, true));
    }
    if c.edges.dom().contains(e) && !outgoing && c.edges[e].dst == node {
        let i = choose|i: int| 0 <= i < b.len() && (#[trigger] b[i]).edge == e;
        assert(out[n + i] == directed(b[i], false));
        assert(entry_is(out[n + i], e, false));
    }
    assert forall|i: int, j: int|
        0 <= i < j < out.len() && entry_is(#[trigger] out[i], e, outgoing) implies !entry_is(
        #[trigger] out[j],
        e,
        outgoing,
    ) by {
        if entry_is(out[j], e, outgoing) {
            if outgoing {
                lemma_entry_once(c, node, true, a, i, j);
            } else {
                lemma_entry_once(c, node, false, b, i - n, j - n);
            }
        }
    }
}

/// The entry is for this edge, on this side.
pub open spec fn entry_is(x: DirectedNeighborEntry, e: EdgeId, outgoing: bool) -> bool {
    x.edge == e && x.outgoing == outgoing
}

proof fn lemma_entry_once(
    c: Content,
    node: NodeId,
    outgoing: bool,
    list: Seq<NeighborEntry>,
    i: int,
    j: int,
)
    requires
        c.lists_neighbors(node, outgoing, list),
        0 <= i < j < list.len(),
    ensures
        list[i].edge != list[j].edge,
{
    if list[i].edge == list[j].edge {
        assert(c.neighbors(list[i], node, outgoing) && c.neighbors(list[j], node, outgoing));
        assert(list[i] == list[j]);
        let key = crate::store_queries::entry_key();
        assert(bytes_lt(key(list[i]), key(list[j])));
        lemma_bytes_lt_irreflexive(key(list[i]));
    }
}

/// No two definitions are on the same property of the same scope.
pub open spec fn distinct_defs(defs: Seq<IndexDef>) -> bool {
    forall|i: int, j: int|
        0 <= i < j < defs.len() ==> (#[trigger] defs[i]).scope != (#[trigger] defs[j]).scope
            || defs[i].prop != defs[j].prop
}

proof fn lemma_with_def(defs: Seq<IndexDef>, d: IndexDef, x: IndexDef)
    requires
        distinct_defs(defs),
    ensures
        with_def(defs, d).contains(x) <==> x == d || (defs.contains(x) && !(x.scope == d.scope
            && x.prop == d.prop)),
{
    let now = with_def(defs, d);
    if defined(defs, d.scope, d.prop) {
        let h = choose|i: int|
            0 <= i < defs.len() && (#[trigger] defs[i]).scope == d.scope && defs[i].prop == d.prop;
        assert(defined_at(defs, d.scope, d.prop, h));
        let i = choose|i: int| defined_at(defs, d.scope, d.prop, i);
        assert(now == defs.update(i, d));
        if now.contains(x) {
            let j = now.index_of(x);
            if j != i {
                assert(defs[j] == x);
                assert(i < j || j < i);
            }
        }
        if x == d {
            assert(now[i] == x);
        }
        if defs.contains(x) && !(x.scope == d.scope && x.prop == d.prop) {
            let j = defs.index_of(x);
            assert(now[j] == x);
        }
    } else {
        let at = def_place(defs, d, 0);
        lemma_def_place(defs, d, 0);
        assert(now == defs.insert(at, d));
        if now.contains(x) {
            let j = now.index_of(x);
            if j < at {
                assert(defs[j] == x);
            } else if j > at {
                assert(defs[j - 1] == x);
            }
        }
        if x == d {
            assert(now[at] == x);
        }
        if defs.contains(x) {
            let j = defs.index_of(x);
            if j < at {
                assert(now[j] == x);
            } else {
                assert(now[j + 1] == x);
            }
        }
    }
}

proof fn lemma_without_def(defs: Seq<IndexDef>, s: u32, p: u32, x: IndexDef)
    requires
        distinct_defs(defs),
        defined(defs, s, p),
    ensures
        without_def(defs, s, p).contains(x) <==> defs.contains(x) && !(x.scope == s && x.prop == p),
{
    let now = without_def(defs, s, p);
    let h = choose|i: int|
        0 <= i < defs.len() && (#[trigger] defs[i]).scope == s && defs[i].prop == p;
    assert(defined_at(defs, s, p, h));
    let i = choose|i: int| defined_at(defs, s, p, i);
    assert(now == defs.remove(i));
    if now.contains(x) {
        let j = now.index_of(x);
        if j < i {
            assert(defs[j] == x);
        } else {
            assert(defs[j + 1] == x);
        }
    }
    if defs.contains(x) && !(x.scope == s && x.prop == p) {
        let j = defs.index_of(x);
        if j < i {
            assert(now[j] == x);
        } else {
            assert(now[j - 1] == x);
        }
    }
}

/// Once an index or constraint on nodes is created it is there, and once it is dropped it
/// is not; those on other properties, or of other labels, stay as they are, and so do all
/// nodes and edges.
pub proof fn lemma_node_index_comes_and_goes(
    s: Store,
    label: Seq<char>,
    property: Seq<char>,
    flags: u8,
    other_label: Seq<char>,
    other_property: Seq<char>,
    other_flags: u8,
)
    requires
        s.wf(),
        s@.labels.len() < u32::MAX,
        s@.keys.len() < u32::MAX,
    ensures
        ({
            let now = s@.with_label_def(label, property, flags);
            let gone = s@.without_label_def(label, property, flags);
            &&& now.label_indexed(label, property, flags)
            &&& !gone.label_indexed(label, property, flags)
            &&& other_flags != flags ==> !now.label_indexed(label, property, other_flags)
            &&& other_label != label || other_property != property ==> now.label_indexed(
                other_label,
                other_property,
                other_flags,
            ) == s@.label_indexed(other_label, other_property, other_flags)
                && gone.label_indexed(other_label, other_property, other_flags)
                == s@.label_indexed(other_label, other_property, other_flags)
            &&& now.nodes == s@.nodes && now.edges == s@.edges
            &&& gone.nodes == s@.nodes && gone.edges == s@.edges
        }),
{
    let c = s@;
    lemma_store_sound(s);
    lemma_definition_changes(
        c.labels,
        c.keys,
        c.label_defs,
        label,
        property,
        flags,
        other_label,
        other_property,
        other_flags,
    );
}

/// Once an index or constraint on edges is created it is there, and once it is dropped it
/// is not; those on other properties, or of other types, stay as they are, and so do all
/// nodes and edges.
pub proof fn lemma_edge_index_comes_and_goes(
    s: Store,
    ty: Seq<char>,
    property: Seq<char>,
    flags: u8,
    other_type: Seq<char>,
    other_property: Seq<char>,
    other_flags: u8,
)
    requires
        s.wf(),
        s@.types.len() < u32::MAX,
        s@.keys.len() < u32::MAX,
    ensures
        ({
            let now = s@.with_type_def(ty, property, flags);
            let gone = s@.without_type_def(ty, property, flags);
            &&& now.type_indexed(ty, property, flags)
            &&& !gone.type_indexed(ty, property, flags)
            &&& other_flags != flags ==> !now.type_indexed(ty, property, other_flags)
            &&& other_type != ty || other_property != property ==> now.type_indexed(
                other_type,
                other_property,
                other_flags,
            ) == s@.type_indexed(other_type, other_property, other_flags) && gone.type_indexed(
                other_type,
                other_property,
                other_flags,
            ) == s@.type_indexed(other_type, other_property, other_flags)
            &&& now.nodes == s@.nodes && now.edges == s@.edges
            &&& gone.nodes == s@.nodes && gone.edges == s@.edges
        }),
{
    let c = s@;
    lemma_store_sound(s);
    lemma_definition_changes(
        c.types,
        c.keys,
        c.type_defs,
        ty,
        property,
        flags,
        other_type,
        other_property,
        other_flags,
    );
}

proof fn lemma_definition_changes(
    scopes: Seq<Seq<char>>,
    keys: Seq<Seq<char>>,
    defs: Seq<IndexDef>,
    scope: Seq<char>,
    property: Seq<char>,
    flags: u8,
    other: Seq<char>,
    name: Seq<char>,
    kind: u8,
)
    requires
        scopes.no_duplicates(),
        keys.no_duplicates(),
        scopes.len() < u32::MAX,
        keys.len() < u32::MAX,
        distinct_defs(defs),
        forall|i: int|
            0 <= i < defs.len() ==> (#[trigger] defs[i]).scope < scopes.len() && defs[i].prop
                < keys.len(),
    ensures
        ({
            let (scopes2, keys2) = (with_name(scopes, scope), with_name(keys, property));
            let l = number_of_name(scopes2, scope)->0;
            let p = number_of_name(keys2, property)->0;
            let had = has_def(scopes, keys, defs, scope, property, flags);
            let now = with_def(defs, IndexDef { scope: l, prop: p, flags });
            let gone = without_def(defs, l, p);
            &&& has_def(scopes2, keys2, now, scope, property, flags)
            &&& kind != flags && had ==> !has_def(scopes, keys, defs, scope, property, kind)
            &&& kind != flags ==> !has_def(scopes2, keys2, now, scope, property, kind)
            &&& had ==> !has_def(scopes2, keys2, gone, scope, property, flags)
            &&& !had ==> !has_def(scopes2, keys2, defs, scope, property, flags)
            &&& other != scope || name != property ==> {
                &&& has_def(scopes2, keys2, now, other, name, kind) == has_def(
                    scopes,
                    keys,
                    defs,
                    other,
                    name,
                    kind,
                )
                &&& had ==> has_def(scopes2, keys2, gone, other, name, kind) == has_def(
                    scopes,
                    keys,
                    defs,
                    other,
                    name,
                    kind,
                )
                &&& has_def(scopes2, keys2, defs, other, name, kind) == has_def(
                    scopes,
                    keys,
                    defs,
                    other,
                    name,
                    kind,
                )
            }
        }),
{
    let (scopes2, keys2) = (with_name(scopes, scope), with_name(keys, property));
    lemma_with_name(scopes, scope, scope);
    lemma_with_name(scopes, scope, other);
    lemma_with_name(keys, property, property);
    lemma_with_name(keys, property, name);
    assert(scopes2.contains(scope)) by {
        if !scopes.contains(scope) {
            assert(scopes2[scopes.len() as int] == scope);
        }
    }
    assert(keys2.contains(property)) by {
        if !keys.contains(property) {
            assert(keys2[keys.len() as int] == property);
        }
    }
    let l = number_of_name(scopes2, scope)->0;
    let p = number_of_name(keys2, property)->0;
    let had = has_def(scopes, keys, defs, scope, property, flags);
    let d = IndexDef { scope: l, prop: p, flags };
    lemma_with_def(defs, d, d);
    let e = IndexDef { scope: l, prop: p, flags: kind };
    lemma_with_def(defs, d, e);
    if !scopes.contains(scope) {
        assert(l == scopes.len()) by {
            assert(scopes2[l as int] == scope);
            if l < scopes.len() {
                assert(scopes[l as int] == scope);
            }
        }
    }
    if !keys.contains(property) {
        assert(p == keys.len()) by {
            assert(keys2[p as int] == property);
            if p < keys.len() {
                assert(keys[p as int] == property);
            }
        }
    }
    assert(defs.contains(d) ==> had);
    if had {
        let i = defs.index_of(d);
        assert(defs[i] == d);
        assert(defined(defs, l, p));
        lemma_without_def(defs, l, p, d);
        if kind != flags && defs.contains(e) {
            let j = defs.index_of(e);
            assert(defs[j] == e);
            assert(i < j || j < i);
        }
    }
    if (other != scope || name != property) && number_of_name(scopes2, other) is Some
        && number_of_name(keys2, name) is Some {
        let o = number_of_name(scopes2, other)->0;
        let q = number_of_name(keys2, name)->0;
        assert(scopes2[o as int] == other && keys2[q as int] == name);
        assert(scopes2[l as int] == scope && keys2[p as int] == property);
        assert(o != l || q != p);
        let x = IndexDef { scope: o, prop: q, flags: kind };
        lemma_with_def(defs, d, x);
        if had {
            lemma_without_def(defs, l, p, x);
        }
        if defs.contains(x) {
            let i = defs.index_of(x);
            assert(defs[i] == x);
            if number_of_name(scopes, other) is None {
                assert(scopes[o as int] == other);
            }
            if number_of_name(keys, name) is None {
                assert(keys[q as int] == name);
            }
        }
    }
}

/// Numbers with the same bytes have the same ties.
proof fn lemma_same_tie(x: nat, a: Option<int>, y: nat, b: Option<int>)
    requires
        number_bytes(x, a) == number_bytes(y, b),
        tie_key(a) <= u64::MAX,
        tie_key(b) <= u64::MAX,
    ensures
        tie_key(a) == tie_key(b),
{
    assert forall|z: nat| be_bytes(z, 8).len() == 8 by {
        lemma_be_len(z, 8);
    }
    assert(number_bytes(x, a).skip(9) =~= be_bytes(tie_key(a), 8));
    assert(number_bytes(y, b).skip(9) =~= be_bytes(tie_key(b), 8));
    lemma_byte_powers();
    lemma_be_order(tie_key(a), tie_key(b), 8);
}

/// The value of an integer is looked up exactly: numbers of the same value are found, and
/// nothing else.
proof fn lemma_same_integer(v: Val, x: i64)
    requires
        i64::MIN < x < i64::MAX,
    ensures
        same_value(v, Val::Int(x)) <==> is_integer(v, x),
{
    let e = encoding(Val::Int(x))->0;
    assert(e[0] == 3);
    match v {
        Val::Int(y) => {
            lemma_integer_order(x, y);
        },
        Val::Float(bits) => {
            if integral(bits) == Some(x as int) {
                lemma_integer_float_unify(x, bits);
            }
            if same_value(v, Val::Int(x)) {
                lemma_integral_range(bits);
                lemma_same_tie(bits as nat, integral(bits), float_of(x as int), Some(x as int));
            }
        },
        Val::UInt(u) => {
            if same_value(v, Val::Int(x)) {
                let bits = float_of(u as int);
                let tie = if u <= 0x7fff_ffff_ffff_ffff {
                    Some(u as int)
                } else {
                    integral(bits as u64)
                };
                lemma_magnitude_bound(u as nat);
                if u > 0x7fff_ffff_ffff_ffff {
                    lemma_large_is_no_integer(u);
                }
                lemma_same_tie(bits, tie, float_of(x as int), Some(x as int));
            }
        },
        Val::Str(t) => {
            if encoding(v) is Some {
                assert(encoding(v)->0[0] == 4);
            }
        },
        Val::Bool(b) => {
            assert(encoding(v)->0[0] != 3);
        },
        Val::Null => {
            assert(encoding(v)->0[0] != 3);
        },
        _ => {},
    }
}

/// A lookup of an integer finds the nodes that carry the label and have that integer in the
/// property, written in whatever way, and no others; one of a string those that
/// have that string.
pub proof fn lemma_node_lookup_is_exact(
    c: Content,
    label: Seq<char>,
    name: Seq<char>,
    x: i64,
    text: Seq<char>,
    id: NodeId,
)
    requires
        i64::MIN < x < i64::MAX,
    ensures
        c.finds_node(label, name, Val::Int(x), id) <==> c.carries(id, label)
            && c.nodes[id].props.dom().contains(name) && is_integer(c.nodes[id].props[name], x),
        c.finds_node(label, name, Val::Str(text), id) <==> c.carries(id, label)
            && c.nodes[id].props.dom().contains(name) && c.nodes[id].props[name] == Val::Str(text),
{
    let v = c.nodes[id].props[name];
    lemma_same_integer(v, x);
    lemma_same_text(v, text);
}

proof fn lemma_same_text(v: Val, text: Seq<char>)
    ensures
        same_value(v, Val::Str(text)) <==> v == Val::Str(text),
{
    if let Val::Str(t) = v {
        lemma_string_lookups_are_exact(t, text);
    } else if encoding(v) is Some {
        assert(encoding(v)->0[0] != 4);
        if encoding(Val::Str(text)) is Some {
            assert(encoding(Val::Str(text))->0[0] == 4);
        }
    }
}

/// A lookup of an integer finds the edges that have the type and that integer in the
/// property, where an index or constraint is on it, and no others.
pub proof fn lemma_edge_lookup_is_exact(
    c: Content,
    ty: Seq<char>,
    name: Seq<char>,
    x: i64,
    id: EdgeId,
)
    requires
        c.sound(),
        i64::MIN < x < i64::MAX,
    ensures
        c.finds_edge(ty, name, Val::Int(x), id) <==> c.has_type(id, ty)
            && c.edges[id].props.dom().contains(name) && is_integer(c.edges[id].props[name], x)
            && exists|flags: u8| #[trigger] c.type_indexed(ty, name, flags),
{
    lemma_same_integer(c.edges[id].props[name], x);
    assert(encoding(Val::Int(x)) is Some);
    let t = c.edges[id].ty;
    let p = number_of_name(c.keys, name)->0;
    if c.finds_edge(ty, name, Val::Int(x), id) {
        let i = choose|i: int|
            0 <= i < c.type_defs.len() && (#[trigger] c.type_defs[i]).scope == t
                && c.type_defs[i].prop == p;
        assert(c.type_defs.contains(c.type_defs[i]));
        assert(c.type_defs[i] == IndexDef { scope: t, prop: p, flags: c.type_defs[i].flags });
        assert(c.type_indexed(ty, name, c.type_defs[i].flags));
    }
    if c.has_type(id, ty) && exists|flags: u8| #[trigger] c.type_indexed(ty, name, flags) {
        let flags = choose|flags: u8| #[trigger] c.type_indexed(ty, name, flags);
        let d = IndexDef { scope: t, prop: p, flags };
        let i = c.type_defs.index_of(d);
        assert(c.type_defs[i] == d);
        assert(defined(c.type_defs, t, p));
    }
}

/// An edge that was updated has the new properties; its ends and its type stay, and so do
/// the other edges and all nodes.
pub proof fn lemma_updated_edge(
    c: Content,
    id: EdgeId,
    props: Map<Seq<char>, Val>,
    ty: Seq<char>,
    other: EdgeId,
)
    requires
        c.edges.dom().contains(id),
    ensures
        ({
            let now = c.with_edge_props(id, props);
            &&& now.edges[id].props == props
            &&& now.edges[id].src == c.edges[id].src && now.edges[id].dst == c.edges[id].dst
            &&& now.has_type(other, ty) <==> c.has_type(other, ty)
            &&& now.edges.dom().contains(other) <==> c.edges.dom().contains(other)
            &&& other != id ==> now.edges[other] == c.edges[other]
            &&& now.nodes == c.nodes
        }),
{
}

/// Null values are found once an index is created over them, and no longer once it is
/// dropped.
pub proof fn lemma_null_lookups(s: Store, label: Seq<char>, property: Seq<char>, flags: u8, id: NodeId)
    requires
        s.wf(),
        s@.labels.len() < u32::MAX,
        s@.keys.len() < u32::MAX,
    ensures
        !s@.label_indexed(label, property, flags) ==> (s@.with_label_def(
            label,
            property,
            flags,
        ).finds_node(label, property, Val::Null, id) <==> s@.carries(id, label)
            && s@.nodes[id].props.dom().contains(property) && s@.nodes[id].props[property] is Null),
        s@.label_indexed(label, property, flags) ==> !s@.without_label_def(
            label,
            property,
            flags,
        ).finds_node(label, property, Val::Null, id),
{
    let c = s@;
    lemma_store_sound(s);
    lemma_with_name(c.labels, label, label);
    lemma_with_name(c.keys, property, property);
    let labels = with_name(c.labels, label);
    let keys = with_name(c.keys, property);
    assert(labels.contains(label)) by {
        if !c.labels.contains(label) {
            assert(labels[c.labels.len() as int] == label);
        }
    }
    assert(keys.contains(property)) by {
        if !c.keys.contains(property) {
            assert(keys[c.keys.len() as int] == property);
        }
    }
    let l = number_of_name(labels, label)->0;
    let p = number_of_name(keys, property)->0;
    assert(keys[p as int] == property && labels[l as int] == label);
    let v = c.nodes[id].props[property];
    lemma_null_encoding(v);
    lemma_null_encoding(Val::Null);
    let h = label_holding(c.nodes);
    if !c.label_indexed(label, property, flags) {
        let now = c.with_label_def(label, property, flags);
        if now.carries(id, label) && !c.carries(id, label) {
            assert(c.nodes[id].labels.contains(l));
            assert(l < c.labels.len());
            assert(c.labels[l as int] == label);
        }
        if c.carries(id, label) && c.nodes[id].props.dom().contains(property) && v is Null {
            assert(h.dom().contains((l, id)));
            assert(has_encoded(h, keys, l, p, seq![0u8], id));
            assert(now.label_marks.contains((l, p, id)));
        }
    }
}

/// Two nodes have the same code exactly where both have no value, or one that is null, or
/// both have the same one.
pub proof fn lemma_node_codes_group_values(
    c: Content,
    ids: Seq<NodeId>,
    name: Seq<char>,
    codes: Seq<u32>,
    values: Seq<PropValue>,
    i: int,
    j: int,
)
    requires
        groups(codes, values),
        ids.len() == codes.len(),
        forall|k: int|
            0 <= k < codes.len() ==> values[(#[trigger] codes[k]) as int]@ == value_in(
                c.nodes[ids[k]].props,
                name,
            ),
        0 <= i < codes.len(),
        0 <= j < codes.len(),
    ensures
        codes[i] == codes[j] <==> ({
            let (a, b) = (c.nodes[ids[i]].props, c.nodes[ids[j]].props);
            let (x, y) = (
                a.dom().contains(name) && a[name] !is Null,
                b.dom().contains(name) && b[name] !is Null,
            );
            x == y && (x ==> a[name] == b[name])
        }),
{
    let given = Seq::new(codes.len(), |k: int| value_in(c.nodes[ids[k]].props, name));
    lemma_codes_group_values(codes, values, given, i, j);
}

/// A node has relationships exactly where some edge leaves it or enters it.
pub proof fn lemma_relationships_are_edges(c: Content, node: NodeId)
    ensures
        c.has_edges(node) <==> exists|e: EdgeId| #[trigger]
            c.edges.dom().contains(e) && (c.edges[e].src == node || c.edges[e].dst == node),
{
    if c.has_edges(node) {
        let e = choose|e: EdgeId| #[trigger] c.touches(e, node);
        assert(c.edges.dom().contains(e));
    }
    if exists|e: EdgeId| #[trigger]
        c.edges.dom().contains(e) && (c.edges[e].src == node || c.edges[e].dst == node) {
        let e = choose|e: EdgeId| #[trigger]
            c.edges.dom().contains(e) && (c.edges[e].src == node || c.edges[e].dst == node);
        assert(c.touches(e, node));
    }
}

/// An edge that was deleted is gone; the other edges and all nodes are as they were. With a
/// node exactly the edges go that leave it or enter it.
pub proof fn lemma_deletions_take_no_more(c: Content, edge: EdgeId, node: NodeId, other: EdgeId)
    ensures
        ({
            let now = c.without_edge(edge);
            &&& !now.edges.dom().contains(edge)
            &&& other != edge ==> now.edges.dom().contains(other) == c.edges.dom().contains(other)
                && (c.edges.dom().contains(other) ==> now.edges[other] == c.edges[other])
            &&& now.nodes == c.nodes
        }),
        ({
            let now = c.without_node(node);
            &&& !now.nodes.dom().contains(node)
            &&& now.edges.dom().contains(other) <==> c.edges.dom().contains(other)
                && c.edges[other].src != node && c.edges[other].dst != node
        }),
{
}

/// A node that was updated has the new properties and the labels that it had; the other
/// nodes and all edges are as they were.
pub proof fn lemma_updated_node(
    c: Content,
    id: NodeId,
    props: Map<Seq<char>, Val>,
    now: Content,
    label: Seq<char>,
    other: NodeId,
)
    requires
        c.nodes.dom().contains(id),
        c.with_node_props(id, props, now),
    ensures
        now.nodes[id].props == props,
        now.carries(other, label) <==> c.carries(other, label),
        now.nodes.dom().contains(other) <==> c.nodes.dom().contains(other),
        other != id ==> now.nodes[other] == c.nodes[other],
        now.edges == c.edges,
{
}

/// Adding a label gives a node that label and no other; its properties, the other nodes and
/// all edges stay as they were.
pub proof fn lemma_added_label(
    c: Content,
    id: NodeId,
    label: Seq<char>,
    now: Content,
    name: Seq<char>,
    other: NodeId,
)
    requires
        c.sound(),
        c.labels.len() < u32::MAX,
        c.nodes.dom().contains(id),
        c.with_label(id, label, now),
    ensures
        now.carries(id, name) <==> name == label || c.carries(id, name),
        now.nodes[id].props == c.nodes[id].props,
        now.nodes.dom().contains(other) <==> c.nodes.dom().contains(other),
        other != id ==> now.nodes[other] == c.nodes[other] && (now.carries(other, name)
            <==> c.carries(other, name)),
        now.edges == c.edges,
{
    lemma_with_name(c.labels, label, label);
    lemma_with_name(c.labels, label, name);
    assert(now.labels.contains(label)) by {
        if !c.labels.contains(label) {
            assert(now.labels[c.labels.len() as int] == label);
        }
    }
    let l = number_of_name(now.labels, label)->0;
    let had = c.nodes[id].labels;
    assert(now.labels[l as int] == label);
    assert(had.push(l)[had.len() as int] == l);
    assert forall|x: u32| #[trigger] had.push(l).contains(x) <==> had.contains(x) || x == l by {
        if had.push(l).contains(x) {
            let j = had.push(l).index_of(x);
            if j < had.len() {
                assert(had[j] == x);
            }
        }
        if had.contains(x) {
            let j = had.index_of(x);
            assert(had.push(l)[j] == x);
        }
    }
    if number_of_name(now.labels, name) is Some {
        let m = number_of_name(now.labels, name)->0;
        assert(now.labels[m as int] == name);
        if number_of_name(c.labels, name) is None && (had.contains(m) || (c.nodes.dom().contains(
            other,
        ) && c.nodes[other].labels.contains(m))) {
            assert(m < c.labels.len());
            assert(c.labels[m as int] == name);
        }
    }
}

} // verus!
