//! What holds of every graph, whatever is done to it.

use vstd::prelude::*;
use vstd::utf8::encode_utf8;

use crate::catalog::{
    breaks, def_place, defined, defined_at, has_value, indexed_name, lacks, names_grow, share,
    unmet, with_def, without_def, Holding, IndexDef,
};
use crate::csr::ascending;
use crate::graph::Graph;
use crate::image::{lemma_store_lists, node_list};
use crate::schema::{EdgeId, LabelId, NodeId, PropKeyId};
use crate::store::{
    breached, end_of, label_holding, numbers_of, refused, type_holding, with_names, Content, Store,
};
use crate::store_edges::NeighborEntry;
use crate::tables::{lemma_with_name, named, number_of_name, with_name, Props};
use crate::value::{encoding, integral, lemma_integer_float_unify, same_value, Val};

verus! {

impl Content {
    /// Names are unique, and what refers to them by number is in range.
    pub open spec fn sound(&self) -> bool {
        &&& self.labels.no_duplicates()
        &&& self.types.no_duplicates()
        &&& self.keys.no_duplicates()
        &&& self.labels.len() <= u32::MAX
        &&& self.types.len() <= u32::MAX
        &&& self.keys.len() <= u32::MAX
        &&& forall|i: int|
            0 <= i < self.label_defs.len() ==> (#[trigger] self.label_defs[i]).scope
                < self.labels.len() && self.label_defs[i].prop < self.keys.len()
        &&& forall|i: int|
            0 <= i < self.type_defs.len() ==> (#[trigger] self.type_defs[i]).scope
                < self.types.len() && self.type_defs[i].prop < self.keys.len()
        &&& forall|id: NodeId, l: LabelId|
            self.nodes.dom().contains(id) && #[trigger] self.nodes[id].labels.contains(l) ==> l
                < self.labels.len()
        &&& forall|id: NodeId| #[trigger]
            self.nodes.dom().contains(id) ==> id < self.next_node
        &&& forall|id: EdgeId| #[trigger]
            self.edges.dom().contains(id) ==> id < self.next_edge && self.edges[id].ty
                < self.types.len()
    }

    /// Every constraint is satisfied.
    pub open spec fn constraints_hold(&self) -> bool {
        &&& forall|i: int|
            0 <= i < self.label_defs.len() ==> !unmet(
                label_holding(self.nodes),
                (#[trigger] self.label_defs[i]).scope,
                self.keys[self.label_defs[i].prop as int],
                self.label_defs[i].flags,
            )
        &&& forall|i: int|
            0 <= i < self.type_defs.len() ==> !unmet(
                type_holding(self.edges),
                (#[trigger] self.type_defs[i]).scope,
                self.keys[self.type_defs[i].prop as int],
                self.type_defs[i].flags,
            )
    }
}

/// What a store holds is sound.
pub proof fn lemma_store_sound(s: Store)
    requires
        s.wf(),
    ensures
        s@.sound(),
{
    let c = s@;
    assert forall|id: NodeId, l: LabelId|
        c.nodes.dom().contains(id) && #[trigger] c.nodes[id].labels.contains(l) implies l
        < c.labels.len() by {
        assert(label_holding(c.nodes).dom().contains((l, id)));
    }
    assert forall|id: EdgeId| #[trigger] c.edges.dom().contains(id) implies id < c.next_edge
        && c.edges[id].ty < c.types.len() by {
        assert(s.edges@.dom().contains(id));
        assert(type_holding(c.edges).dom().contains((c.edges[id].ty, id)));
    }
    assert forall|id: NodeId| #[trigger] c.nodes.dom().contains(id) implies id < c.next_node by {
        assert(s.nodes@.dom().contains(id));
    }
}

/// An empty store satisfies every constraint.
pub proof fn lemma_empty_holds(c: Content)
    requires
        c.label_defs.len() == 0,
        c.type_defs.len() == 0,
    ensures
        c.constraints_hold(),
{
}

/// Where one member changes and does not break a constraint, the constraint
/// stays satisfied.
proof fn lemma_met_change(
    h: Holding,
    now: Holding,
    s: u32,
    id: u64,
    props: Map<Seq<char>, Val>,
    name: Seq<char>,
    flags: u8,
)
    requires
        !unmet(h, s, name, flags),
        forall|x: u64|
            x != id && #[trigger] now.dom().contains((s, x)) ==> h.dom().contains((s, x)) && now[(
                s,
                x,
            )] == h[(s, x)],
        now.dom().contains((s, id)) ==> now[(s, id)] == props && !breaks(
            h,
            s,
            id,
            props,
            name,
            flags,
        ),
    ensures
        !unmet(now, s, name, flags),
{
    if flags == 2 {
        assert forall|x: u64| #[trigger] now.dom().contains((s, x)) implies !lacks(
            now[(s, x)],
            name,
        ) by {
            if x != id {
                assert(h.dom().contains((s, x)));
            }
        }
    }
    if flags == 1 {
        assert forall|a: u64, b: u64| a != b implies !#[trigger] share(now, s, name, a, b) by {
            if share(now, s, name, a, b) {
                assert(now.dom().contains((s, a)) && now.dom().contains((s, b)));
                if a != id && b != id {
                    assert(share(h, s, name, a, b));
                } else if a == id {
                    assert(has_value(h, s, b, name, props[name]));
                } else {
                    assert(has_value(h, s, a, name, props[name]));
                }
            }
        }
    }
}

/// Where members only leave, a constraint stays satisfied.
proof fn lemma_met_less(h: Holding, now: Holding, s: u32, name: Seq<char>, flags: u8)
    requires
        !unmet(h, s, name, flags),
        forall|x: u64| #[trigger]
            now.dom().contains((s, x)) ==> h.dom().contains((s, x)) && now[(s, x)] == h[(s, x)],
    ensures
        !unmet(now, s, name, flags),
{
    if flags == 2 {
        assert forall|x: u64| #[trigger] now.dom().contains((s, x)) implies !lacks(
            now[(s, x)],
            name,
        ) by {
            assert(h.dom().contains((s, x)));
        }
    }
    if flags == 1 {
        assert forall|a: u64, b: u64| a != b implies !#[trigger] share(now, s, name, a, b) by {
            if share(now, s, name, a, b) {
                assert(now.dom().contains((s, a)) && now.dom().contains((s, b)));
                assert(share(h, s, name, a, b));
            }
        }
    }
}

/// A number that a list of names gets is that of one of them.
pub(crate) proof fn lemma_number_of_list(registry: Seq<Seq<char>>, names: Seq<Seq<char>>, l: u32) -> (k: int)
    requires
        registry.no_duplicates(),
        registry.len() + names.len() <= u32::MAX,
        numbers_of(registry, names).contains(l),
    ensures
        0 <= k < names.len(),
        number_of_name(with_names(registry, names), names[k]) == Some(l),
        l < registry.len() ==> number_of_name(registry, names[k]) == Some(l),
    decreases names.len(),
{
    let before = names.drop_last();
    let last = names.last();
    let mid = with_names(registry, before);
    let now = with_names(registry, names);
    lemma_with_names(registry, before);
    lemma_with_name(mid, last, last);
    let n = number_of_name(now, last)->0;
    assert(now.contains(last)) by {
        if !mid.contains(last) {
            assert(now[mid.len() as int] == last);
        }
    }
    let prev = numbers_of(registry, before);
    if prev.contains(l) {
        let k = lemma_number_of_list(registry, before, l);
        assert(before[k] == names[k]);
        lemma_with_name(mid, last, names[k]);
        k
    } else {
        let i = numbers_of(registry, names).index_of(l);
        assert(numbers_of(registry, names)[i] == l);
        assert(l == n) by {
            if !prev.contains(n) {
                if i < prev.len() {
                    assert(prev[i] == l);
                }
            }
        }
        let k = names.len() - 1;
        if l < registry.len() {
            lemma_with_names(registry, names);
            assert(now[l as int] == last);
            assert(registry[l as int] == now[l as int]);
            assert(registry.contains(last));
            let j = registry.index_of(last);
            assert(registry[j] == last);
            assert(j == l);
        }
        k
    }
}

/// Adding names keeps the numbers of those that are there.
pub proof fn lemma_with_names(registry: Seq<Seq<char>>, names: Seq<Seq<char>>)
    requires
        registry.no_duplicates(),
        registry.len() + names.len() <= u32::MAX,
    ensures
        with_names(registry, names).no_duplicates(),
        registry.is_prefix_of(with_names(registry, names)),
        with_names(registry, names).len() <= registry.len() + names.len(),
    decreases names.len(),
{
    if names.len() > 0 {
        lemma_with_names(registry, names.drop_last());
        let mid = with_names(registry, names.drop_last());
        lemma_with_name(mid, names.last(), names.last());
    }
}

/// Every name of a list gets a number, and it is in the list of numbers.
pub proof fn lemma_listed_number(registry: Seq<Seq<char>>, names: Seq<Seq<char>>, k: int)
    requires
        registry.no_duplicates(),
        registry.len() + names.len() <= u32::MAX,
        0 <= k < names.len(),
    ensures
        number_of_name(with_names(registry, names), names[k]) is Some,
        numbers_of(registry, names).contains(
            number_of_name(with_names(registry, names), names[k])->0,
        ),
    decreases names.len(),
{
    let before = names.drop_last();
    let last = names.last();
    let mid = with_names(registry, before);
    let now = with_names(registry, names);
    let prev = numbers_of(registry, before);
    lemma_with_names(registry, before);
    lemma_with_name(mid, last, last);
    let list = numbers_of(registry, names);
    if k < before.len() {
        lemma_listed_number(registry, before, k);
        lemma_with_name(mid, last, names[k]);
        let n = number_of_name(mid, names[k])->0;
        let i = prev.index_of(n);
        assert(prev[i] == n);
        assert(list[i] == n);
    } else {
        assert(now.contains(last)) by {
            if !mid.contains(last) {
                assert(now[mid.len() as int] == last);
            }
        }
        let n = number_of_name(now, last)->0;
        if !prev.contains(n) {
            assert(list[prev.len() as int] == n);
        }
    }
}

/// Adding a node keeps every constraint satisfied.
pub proof fn lemma_add_node_keeps_constraints(
    c: Content,
    labels: Seq<Seq<char>>,
    props: Map<Seq<char>, Val>,
    now: Content,
)
    requires
        c.sound(),
        c.constraints_hold(),
        c.labels.len() + labels.len() <= u32::MAX,
        !c.refuses_node(labels, c.next_node, props),
        c.with_node(labels, props, now),
    ensures
        now.constraints_hold(),
{
    let id = c.next_node;
    let h = label_holding(c.nodes);
    let h2 = label_holding(now.nodes);
    let list = numbers_of(c.labels, labels);
    assert forall|i: int| 0 <= i < now.label_defs.len() implies !unmet(
        h2,
        (#[trigger] now.label_defs[i]).scope,
        now.keys[now.label_defs[i].prop as int],
        now.label_defs[i].flags,
    ) by {
        let d = c.label_defs[i];
        let name = c.keys[d.prop as int];
        assert(now.keys[d.prop as int] == name);
        assert(!c.nodes.dom().contains(id));
        if h2.dom().contains((d.scope, id)) {
            assert(list.contains(d.scope));
            let k = lemma_number_of_list(c.labels, labels, d.scope);
            assert(!c.refuses_label(labels[k], id, props));
            assert(!breached(h, c.keys, c.label_defs, d.scope, id, props, i));
        }
        lemma_met_change(h, h2, d.scope, id, props, name, d.flags);
    }
}

/// Replacing a node's properties keeps every constraint satisfied.
pub proof fn lemma_update_node_keeps_constraints(
    c: Content,
    id: NodeId,
    props: Map<Seq<char>, Val>,
    now: Content,
)
    requires
        c.sound(),
        c.constraints_hold(),
        c.nodes.dom().contains(id),
        !c.refuses_update(id, props),
        c.with_node_props(id, props, now),
    ensures
        now.constraints_hold(),
{
    let h = label_holding(c.nodes);
    let h2 = label_holding(now.nodes);
    assert forall|i: int| 0 <= i < now.label_defs.len() implies !unmet(
        h2,
        (#[trigger] now.label_defs[i]).scope,
        now.keys[now.label_defs[i].prop as int],
        now.label_defs[i].flags,
    ) by {
        let d = c.label_defs[i];
        let name = c.keys[d.prop as int];
        assert(now.keys[d.prop as int] == name);
        if h2.dom().contains((d.scope, id)) {
            let labels = c.nodes[id].labels;
            let k = labels.index_of(d.scope);
            assert(labels[k] == d.scope);
            assert(!refused(h, c.keys, c.label_defs, c.nodes[id].labels[k], id, props));
            assert(!breached(h, c.keys, c.label_defs, d.scope, id, props, i));
        }
        lemma_met_change(h, h2, d.scope, id, props, name, d.flags);
    }
}

/// Adding a label keeps every constraint satisfied.
pub proof fn lemma_add_label_keeps_constraints(
    c: Content,
    id: NodeId,
    label: Seq<char>,
    now: Content,
)
    requires
        c.sound(),
        c.constraints_hold(),
        c.labels.len() < u32::MAX,
        c.nodes.dom().contains(id),
        !c.carries(id, label),
        !c.refuses_label(label, id, c.nodes[id].props),
        c.with_label(id, label, now),
    ensures
        now.constraints_hold(),
{
    let h = label_holding(c.nodes);
    let h2 = label_holding(now.nodes);
    let l = number_of_name(now.labels, label)->0;
    let props = c.nodes[id].props;
    let had = c.nodes[id].labels;
    lemma_with_name(c.labels, label, label);
    assert(now.labels.contains(label)) by {
        if !c.labels.contains(label) {
            assert(now.labels[c.labels.len() as int] == label);
        }
    }
    assert forall|x: u32| #[trigger] had.push(l).contains(x) <==> had.contains(x) || x == l by {
        if had.contains(x) {
            let j = had.index_of(x);
            assert(had.push(l)[j] == x);
        }
        assert(had.push(l)[had.len() as int] == l);
    }
    assert forall|i: int| 0 <= i < now.label_defs.len() implies !unmet(
        h2,
        (#[trigger] now.label_defs[i]).scope,
        now.keys[now.label_defs[i].prop as int],
        now.label_defs[i].flags,
    ) by {
        let d = c.label_defs[i];
        let name = c.keys[d.prop as int];
        assert(now.keys[d.prop as int] == name);
        if d.scope == l {
            assert(number_of_name(c.labels, label) == Some(l)) by {
                let j = now.labels.index_of(label);
                assert(now.labels[j] == label);
                assert(c.labels[l as int] == label);
                assert(c.labels.contains(label));
            }
            assert(!breached(h, c.keys, c.label_defs, l, id, props, i));
            lemma_met_change(h, h2, d.scope, id, props, name, d.flags);
        } else {
            lemma_met_less(h, h2, d.scope, name, d.flags);
        }
    }
}

/// Adding an edge keeps every constraint satisfied.
pub proof fn lemma_add_edge_keeps_constraints(
    c: Content,
    src: NodeId,
    dst: NodeId,
    ty: Seq<char>,
    props: Map<Seq<char>, Val>,
)
    requires
        c.sound(),
        c.constraints_hold(),
        c.types.len() < u32::MAX,
        !c.refuses_edge(ty, c.next_edge, props),
    ensures
        c.with_edge(src, dst, ty, props).constraints_hold(),
{
    let now = c.with_edge(src, dst, ty, props);
    let id = c.next_edge;
    let h = type_holding(c.edges);
    let h2 = type_holding(now.edges);
    let t = number_of_name(now.types, ty)->0;
    lemma_with_name(c.types, ty, ty);
    assert(now.types.contains(ty)) by {
        if !c.types.contains(ty) {
            assert(now.types[c.types.len() as int] == ty);
        }
    }
    assert forall|i: int| 0 <= i < now.type_defs.len() implies !unmet(
        h2,
        (#[trigger] now.type_defs[i]).scope,
        now.keys[now.type_defs[i].prop as int],
        now.type_defs[i].flags,
    ) by {
        let d = c.type_defs[i];
        let name = c.keys[d.prop as int];
        if h2.dom().contains((d.scope, id)) {
            assert(d.scope == t);
            assert(number_of_name(c.types, ty) == Some(t)) by {
                let j = now.types.index_of(ty);
                assert(now.types[j] == ty);
                assert(c.types[t as int] == ty);
                assert(c.types.contains(ty));
            }
            assert(!breached(h, c.keys, c.type_defs, t, id, props, i));
        }
        lemma_met_change(h, h2, d.scope, id, props, name, d.flags);
    }
}

/// Replacing an edge's properties keeps every constraint satisfied.
pub proof fn lemma_update_edge_keeps_constraints(
    c: Content,
    id: EdgeId,
    props: Map<Seq<char>, Val>,
)
    requires
        c.sound(),
        c.constraints_hold(),
        c.edges.dom().contains(id),
        !refused(type_holding(c.edges), c.keys, c.type_defs, c.edges[id].ty, id, props),
    ensures
        c.with_edge_props(id, props).constraints_hold(),
{
    let now = c.with_edge_props(id, props);
    let h = type_holding(c.edges);
    let h2 = type_holding(now.edges);
    assert forall|i: int| 0 <= i < now.type_defs.len() implies !unmet(
        h2,
        (#[trigger] now.type_defs[i]).scope,
        now.keys[now.type_defs[i].prop as int],
        now.type_defs[i].flags,
    ) by {
        let d = c.type_defs[i];
        let name = c.keys[d.prop as int];
        if h2.dom().contains((d.scope, id)) {
            assert(!breached(h, c.keys, c.type_defs, d.scope, id, props, i));
        }
        lemma_met_change(h, h2, d.scope, id, props, name, d.flags);
    }
}

/// Deleting a node, an edge or a label keeps every constraint satisfied.
pub proof fn lemma_deletions_keep_constraints(c: Content, node: NodeId, edge: EdgeId, l: LabelId)
    requires
        c.sound(),
        c.constraints_hold(),
    ensures
        c.without_node(node).constraints_hold(),
        c.without_edge(edge).constraints_hold(),
        c.nodes.dom().contains(node) && c.nodes[node].labels.contains(l) ==> c.without_label(
            node,
            l,
        ).constraints_hold(),
{
    let h = label_holding(c.nodes);
    let g = type_holding(c.edges);
    let a = c.without_node(node);
    let b = c.without_edge(edge);
    let e = c.without_label(node, l);
    assert forall|i: int| 0 <= i < c.label_defs.len() implies !unmet(
        label_holding(a.nodes),
        (#[trigger] c.label_defs[i]).scope,
        c.keys[c.label_defs[i].prop as int],
        c.label_defs[i].flags,
    ) && (c.nodes.dom().contains(node) && c.nodes[node].labels.contains(l) ==> !unmet(
        label_holding(e.nodes),
        c.label_defs[i].scope,
        c.keys[c.label_defs[i].prop as int],
        c.label_defs[i].flags,
    )) by {
        let d = c.label_defs[i];
        let name = c.keys[d.prop as int];
        lemma_met_less(h, label_holding(a.nodes), d.scope, name, d.flags);
        if c.nodes.dom().contains(node) && c.nodes[node].labels.contains(l) {
            let labels = c.nodes[node].labels;
            let at = labels.index_of(l);
            assert forall|x: u64| #[trigger]
                label_holding(e.nodes).dom().contains((d.scope, x)) implies h.dom().contains(
                (d.scope, x),
            ) && label_holding(e.nodes)[(d.scope, x)] == h[(d.scope, x)] by {
                if x == node {
                    let rest = labels.remove(at);
                    let j = rest.index_of(d.scope);
                    assert(rest[j] == d.scope);
                    if j < at {
                        assert(labels[j] == d.scope);
                    } else {
                        assert(labels[j + 1] == d.scope);
                    }
                }
            }
            lemma_met_less(h, label_holding(e.nodes), d.scope, name, d.flags);
        }
    }
    assert forall|i: int| 0 <= i < c.type_defs.len() implies !unmet(
        type_holding(a.edges),
        (#[trigger] c.type_defs[i]).scope,
        c.keys[c.type_defs[i].prop as int],
        c.type_defs[i].flags,
    ) && !unmet(
        type_holding(b.edges),
        c.type_defs[i].scope,
        c.keys[c.type_defs[i].prop as int],
        c.type_defs[i].flags,
    ) by {
        let d = c.type_defs[i];
        let name = c.keys[d.prop as int];
        lemma_met_less(g, type_holding(a.edges), d.scope, name, d.flags);
        lemma_met_less(g, type_holding(b.edges), d.scope, name, d.flags);
    }
}

/// Defining a constraint that the members satisfy leaves all satisfied.
pub proof fn lemma_define_keeps_constraints(
    c: Content,
    scope: Seq<char>,
    property: Seq<char>,
    flags: u8,
)
    requires
        c.sound(),
        c.constraints_hold(),
        c.labels.len() < u32::MAX,
        c.types.len() < u32::MAX,
        c.keys.len() < u32::MAX,
    ensures
        !c.label_unmet(scope, property, flags) ==> c.with_label_def(
            scope,
            property,
            flags,
        ).constraints_hold(),
        !c.type_unmet(scope, property, flags) ==> c.with_type_def(
            scope,
            property,
            flags,
        ).constraints_hold(),
{
    lemma_with_name(c.labels, scope, scope);
    lemma_with_name(c.types, scope, scope);
    lemma_with_name(c.keys, property, property);
    let keys = with_name(c.keys, property);
    let p = number_of_name(keys, property)->0;
    assert(keys.contains(property)) by {
        if !c.keys.contains(property) {
            assert(keys[c.keys.len() as int] == property);
        }
    }
    let j = keys.index_of(property);
    assert(keys[p as int] == property);
    if !c.label_unmet(scope, property, flags) && !c.label_indexed(scope, property, flags) {
        let now = c.with_label_def(scope, property, flags);
        let l = number_of_name(now.labels, scope)->0;
        assert(now.labels.contains(scope)) by {
            if !c.labels.contains(scope) {
                assert(now.labels[c.labels.len() as int] == scope);
            }
        }
        let d = IndexDef { scope: l, prop: p, flags };
        let h = label_holding(c.nodes);
        assert(!unmet(h, l, property, flags)) by {
            if !c.labels.contains(scope) {
                assert(l >= c.labels.len()) by {
                    let k = now.labels.index_of(scope);
                    assert(now.labels[k] == scope);
                    if k < c.labels.len() {
                        assert(c.labels[k] == scope);
                    }
                }
                assert forall|x: u64| !#[trigger] h.dom().contains((l, x)) by {}
            }
        }
        assert forall|i: int| 0 <= i < now.label_defs.len() implies !unmet(
            h,
            (#[trigger] now.label_defs[i]).scope,
            now.keys[now.label_defs[i].prop as int],
            now.label_defs[i].flags,
        ) by {
            let k = lemma_with_def(c.label_defs, d, i);
            if now.label_defs[i] != d {
                assert(c.label_defs[k] == now.label_defs[i]);
            }
        }
    }
    if !c.type_unmet(scope, property, flags) && !c.type_indexed(scope, property, flags) {
        let now = c.with_type_def(scope, property, flags);
        let t = number_of_name(now.types, scope)->0;
        assert(now.types.contains(scope)) by {
            if !c.types.contains(scope) {
                assert(now.types[c.types.len() as int] == scope);
            }
        }
        let d = IndexDef { scope: t, prop: p, flags };
        let h = type_holding(c.edges);
        assert(!unmet(h, t, property, flags)) by {
            if !c.types.contains(scope) {
                assert(t >= c.types.len()) by {
                    let k = now.types.index_of(scope);
                    assert(now.types[k] == scope);
                    if k < c.types.len() {
                        assert(c.types[k] == scope);
                    }
                }
                assert forall|x: u64| !#[trigger] h.dom().contains((t, x)) by {}
            }
        }
        assert forall|i: int| 0 <= i < now.type_defs.len() implies !unmet(
            h,
            (#[trigger] now.type_defs[i]).scope,
            now.keys[now.type_defs[i].prop as int],
            now.type_defs[i].flags,
        ) by {
            let k = lemma_with_def(c.type_defs, d, i);
            if now.type_defs[i] != d {
                assert(c.type_defs[k] == now.type_defs[i]);
            }
        }
    }
}

/// A definition beside a new one was there before.
proof fn lemma_with_def(defs: Seq<IndexDef>, d: IndexDef, i: int) -> (k: int)
    requires
        0 <= i < with_def(defs, d).len(),
    ensures
        with_def(defs, d)[i] == d || (0 <= k < defs.len() && defs[k] == with_def(defs, d)[i]),
{
    let now = with_def(defs, d);
    if defined(defs, d.scope, d.prop) {
        let x = choose|x: int|
            0 <= x < defs.len() && (#[trigger] defs[x]).scope == d.scope && defs[x].prop == d.prop;
        assert(defined_at(defs, d.scope, d.prop, x));
        i
    } else {
        crate::catalog::lemma_def_place(defs, d, 0);
        let at = def_place(defs, d, 0);
        if i < at {
            i
        } else {
            i - 1
        }
    }
}

/// Taking a definition away keeps the other constraints satisfied.
pub proof fn lemma_undefine_keeps_constraints(
    c: Content,
    scope: Seq<char>,
    property: Seq<char>,
    flags: u8,
)
    requires
        c.sound(),
        c.constraints_hold(),
        c.keys.len() < u32::MAX,
    ensures
        c.without_label_def(scope, property, flags).constraints_hold(),
        c.without_type_def(scope, property, flags).constraints_hold(),
{
    lemma_with_name(c.keys, property, property);
    let a = c.without_label_def(scope, property, flags);
    let b = c.without_type_def(scope, property, flags);
    lemma_fewer_defs(c, scope, property, flags);
    assert forall|i: int| 0 <= i < a.label_defs.len() implies !unmet(
        label_holding(a.nodes),
        (#[trigger] a.label_defs[i]).scope,
        a.keys[a.label_defs[i].prop as int],
        a.label_defs[i].flags,
    ) by {
        let k = c.label_defs.index_of(a.label_defs[i]);
        assert(c.label_defs.contains(a.label_defs[i]));
        assert(c.label_defs[k] == a.label_defs[i]);
        assert(a.keys[c.label_defs[k].prop as int] == c.keys[c.label_defs[k].prop as int]);
    }
    assert forall|i: int| 0 <= i < b.type_defs.len() implies !unmet(
        type_holding(b.edges),
        (#[trigger] b.type_defs[i]).scope,
        b.keys[b.type_defs[i].prop as int],
        b.type_defs[i].flags,
    ) by {
        let k = c.type_defs.index_of(b.type_defs[i]);
        assert(c.type_defs.contains(b.type_defs[i]));
        assert(c.type_defs[k] == b.type_defs[i]);
        assert(b.keys[c.type_defs[k].prop as int] == c.keys[c.type_defs[k].prop as int]);
    }
    assert forall|i: int| 0 <= i < c.type_defs.len() implies a.keys[(
    #[trigger] c.type_defs[i]).prop as int] == c.keys[c.type_defs[i].prop as int] by {}
    assert forall|i: int| 0 <= i < c.label_defs.len() implies b.keys[(
    #[trigger] c.label_defs[i]).prop as int] == c.keys[c.label_defs[i].prop as int] by {}
}

/// Every definition of `less` is one of `defs`.
spec fn among(less: Seq<IndexDef>, defs: Seq<IndexDef>) -> bool {
    forall|i: int| 0 <= i < less.len() ==> defs.contains(#[trigger] less[i])
}

proof fn lemma_fewer_defs(c: Content, scope: Seq<char>, property: Seq<char>, flags: u8)
    requires
        c.sound(),
        c.keys.len() < u32::MAX,
    ensures
        among(c.without_label_def(scope, property, flags).label_defs, c.label_defs),
        among(c.without_type_def(scope, property, flags).type_defs, c.type_defs),
{
    let a = c.without_label_def(scope, property, flags).label_defs;
    let b = c.without_type_def(scope, property, flags).type_defs;
    lemma_with_name(c.keys, property, property);
    assert forall|i: int| 0 <= i < a.len() implies c.label_defs.contains(#[trigger] a[i]) by {
        if c.label_indexed(scope, property, flags) {
            let l = number_of_name(c.labels, scope)->0;
            let p = number_of_name(c.keys, property)->0;
            lemma_without_def(c.label_defs, l, p, flags, i);
        } else {
            assert(c.label_defs[i] == a[i]);
        }
    }
    assert forall|i: int| 0 <= i < b.len() implies c.type_defs.contains(#[trigger] b[i]) by {
        if c.type_indexed(scope, property, flags) {
            let t = number_of_name(c.types, scope)->0;
            let p = number_of_name(c.keys, property)->0;
            lemma_without_def(c.type_defs, t, p, flags, i);
        } else {
            assert(c.type_defs[i] == b[i]);
        }
    }
}

proof fn lemma_without_def(defs: Seq<IndexDef>, s: u32, p: PropKeyId, flags: u8, i: int)
    requires
        defs.contains(IndexDef { scope: s, prop: p, flags }),
        0 <= i < without_def(defs, s, p).len(),
    ensures
        defs.contains(without_def(defs, s, p)[i]),
{
    let j = defs.index_of(IndexDef { scope: s, prop: p, flags });
    assert(defs[j] == IndexDef { scope: s, prop: p, flags });
    assert(defined_at(defs, s, p, j));
    let at = choose|at: int| defined_at(defs, s, p, at);
    assert(defined_at(defs, s, p, at));
    if i < at {
        assert(defs[i] == without_def(defs, s, p)[i]);
    } else {
        assert(defs[i + 1] == without_def(defs, s, p)[i]);
    }
}

/// A node that was added carries its labels, and a lookup of a value that it
/// has finds it under each of them, without any index being created.
pub proof fn lemma_added_node_is_found(
    c: Content,
    labels: Seq<Seq<char>>,
    props: Map<Seq<char>, Val>,
    now: Content,
    k: int,
    name: Seq<char>,
    v: Val,
)
    requires
        c.sound(),
        c.labels.len() + labels.len() <= u32::MAX,
        c.with_node(labels, props, now),
        0 <= k < labels.len(),
    ensures
        now.carries(c.next_node, labels[k]),
        props.dom().contains(name) && same_value(props[name], v) && v !is Null ==> now.finds_node(
            labels[k],
            name,
            v,
            c.next_node,
        ),
{
    lemma_listed_number(c.labels, labels, k);
}

/// A node that was updated is found under its new values and no longer under
/// those that it had and has no more.
pub proof fn lemma_updated_node_is_found(
    c: Content,
    id: NodeId,
    props: Map<Seq<char>, Val>,
    now: Content,
    label: Seq<char>,
    name: Seq<char>,
    v: Val,
)
    requires
        c.nodes.dom().contains(id),
        c.carries(id, label),
        c.with_node_props(id, props, now),
        v !is Null,
    ensures
        now.finds_node(label, name, v, id) <==> props.dom().contains(name) && same_value(
            props[name],
            v,
        ),
{
}

/// A node that was deleted is found by no lookup and under no label, and no
/// edge begins or ends at it; every other node and edge is as it was.
pub proof fn lemma_deleted_node_is_gone(
    c: Content,
    id: NodeId,
    label: Seq<char>,
    name: Seq<char>,
    v: Val,
    other: NodeId,
    edge: EdgeId,
)
    ensures
        !c.without_node(id).carries(id, label),
        !c.without_node(id).finds_node(label, name, v, id),
        !c.without_node(id).touches(edge, id),
        other != id ==> c.without_node(id).nodes.dom().contains(other) == c.nodes.dom().contains(
            other,
        ) && c.without_node(id).nodes[other] == c.nodes[other],
        c.edges.dom().contains(edge) && !c.touches(edge, id) ==> c.without_node(
            id,
        ).edges.dom().contains(edge) && c.without_node(id).edges[edge] == c.edges[edge],
{
}

/// A label that is added makes a node findable under it, and one that is taken
/// off makes it unfindable; under the other labels nothing changes.
pub proof fn lemma_label_changes(
    c: Content,
    id: NodeId,
    label: Seq<char>,
    now: Content,
    other: Seq<char>,
    name: Seq<char>,
    v: Val,
)
    requires
        c.sound(),
        c.labels.len() < u32::MAX,
        c.nodes.dom().contains(id),
        c.nodes[id].labels.no_duplicates(),
        v !is Null,
    ensures
        !c.carries(id, label) && c.with_label(id, label, now) ==> {
            &&& now.carries(id, label)
            &&& now.finds_node(label, name, v, id) <==> c.nodes[id].props.dom().contains(name)
                && same_value(c.nodes[id].props[name], v)
            &&& c.carries(id, other) ==> now.carries(id, other)
        },
        c.carries(id, label) ==> ({
            let less = c.without_label(id, number_of_name(c.labels, label)->0);
            &&& !less.carries(id, label)
            &&& !less.finds_node(label, name, v, id)
            &&& other != label ==> less.carries(id, other) == c.carries(id, other)
                && less.finds_node(other, name, v, id) == c.finds_node(other, name, v, id)
        }),
{
    lemma_with_name(c.labels, label, label);
    lemma_with_name(c.labels, label, other);
    let had = c.nodes[id].labels;
    if !c.carries(id, label) && c.with_label(id, label, now) {
        assert(now.labels.contains(label)) by {
            if !c.labels.contains(label) {
                assert(now.labels[c.labels.len() as int] == label);
            }
        }
        let l = number_of_name(now.labels, label)->0;
        assert(had.push(l)[had.len() as int] == l);
        if c.carries(id, other) {
            let o = number_of_name(c.labels, other)->0;
            let j = had.index_of(o);
            assert(had.push(l)[j] == o);
        }
    }
    if c.carries(id, label) {
        let l = number_of_name(c.labels, label)->0;
        let at = had.index_of(l);
        assert(had[at] == l);
        let rest = had.remove(at);
        assert forall|x: u32| #[trigger] rest.contains(x) <==> had.contains(x) && x != l by {
            if had.contains(x) && x != l {
                let j = had.index_of(x);
                if j < at {
                    assert(rest[j] == x);
                } else {
                    assert(rest[j - 1] == x);
                }
            }
            if rest.contains(x) {
                let j = rest.index_of(x);
                if j < at {
                    assert(had[j] == x);
                } else {
                    assert(had[j + 1] == x);
                }
            }
        }
        if other != label && number_of_name(c.labels, other) is Some {
            let o = number_of_name(c.labels, other)->0;
            let (i, j) = (c.labels.index_of(other), c.labels.index_of(label));
            assert(c.labels[i] == other && c.labels[j] == label);
            assert(o != l);
        }
    }
}

/// Deleting an edge undoes adding it.
pub proof fn lemma_delete_undoes_add(
    c: Content,
    src: NodeId,
    dst: NodeId,
    ty: Seq<char>,
    props: Map<Seq<char>, Val>,
)
    requires
        c.sound(),
    ensures
        c.with_edge(src, dst, ty, props).without_edge(c.next_edge).edges == c.edges,
        c.with_edge(src, dst, ty, props).without_edge(c.next_edge).nodes == c.nodes,
{
    assert(c.with_edge(src, dst, ty, props).without_edge(c.next_edge).edges =~= c.edges);
}

/// Ids are never used twice: what is added has an id that nothing has had.
pub proof fn lemma_ids_are_new(c: Content, node: NodeId, edge: EdgeId)
    requires
        c.sound(),
        node >= c.next_node,
        edge >= c.next_edge,
    ensures
        !c.nodes.dom().contains(node),
        !c.edges.dom().contains(edge),
        c.without_node(node).next_node == c.next_node,
        c.without_edge(edge).next_edge == c.next_edge,
{
}

/// Dropping an index or constraint leaves every lookup of nodes as it is: their
/// values are indexed without it.
pub proof fn lemma_drop_keeps_lookups(
    c: Content,
    scope: Seq<char>,
    property: Seq<char>,
    flags: u8,
    label: Seq<char>,
    name: Seq<char>,
    v: Val,
    id: NodeId,
)
    requires
        c.sound(),
        c.labels.len() < u32::MAX,
        v !is Null,
    ensures
        c.without_label_def(scope, property, flags).finds_node(label, name, v, id) == c.finds_node(
            label,
            name,
            v,
            id,
        ),
{
    lemma_with_name(c.labels, scope, label);
    let now = c.without_label_def(scope, property, flags);
    if number_of_name(c.labels, label) is None && number_of_name(now.labels, label) is Some {
        let l = number_of_name(now.labels, label)->0;
        let k = now.labels.index_of(label);
        assert(now.labels[k] == label);
        if k < c.labels.len() {
            assert(c.labels[k] == label);
        }
        if now.carries(id, label) {
            assert(c.nodes[id].labels.contains(l));
        }
    }
}

/// A lookup of an integer and one of the float of the same value find the same nodes.
pub proof fn lemma_integer_and_float_lookups(
    c: Content,
    label: Seq<char>,
    name: Seq<char>,
    i: i64,
    bits: u64,
    id: NodeId,
)
    requires
        integral(bits) == Some(i as int),
    ensures
        c.finds_node(label, name, Val::Int(i), id) == c.finds_node(
            label,
            name,
            Val::Float(bits),
            id,
        ),
{
    lemma_integer_float_unify(i, bits);
}

/// Strings are the same value exactly where they are the same string, however
/// long they are and whatever they hold.
pub proof fn lemma_string_lookups_are_exact(s: Seq<char>, t: Seq<char>)
    ensures
        same_value(Val::Str(s), Val::Str(t)) <==> s == t,
{
    let (a, b) = (encoding(Val::Str(s)), encoding(Val::Str(t)));
    if same_value(Val::Str(s), Val::Str(t)) && a is Some {
        let (x, y) = (a->0, b->0);
        assert(x.subrange(1, x.len() - 1) =~= encode_utf8(s));
        assert(y.subrange(1, y.len() - 1) =~= encode_utf8(t));
        vstd::utf8::encode_utf8_decode_utf8(s);
        vstd::utf8::encode_utf8_decode_utf8(t);
    }
}

/// An edge is listed at its source among those that leave it exactly where it
/// is listed at its destination among those that enter it.
pub proof fn lemma_neighbors_agree(
    c: Content,
    e: EdgeId,
    src: NodeId,
    dst: NodeId,
    out: Seq<NeighborEntry>,
    ins: Seq<NeighborEntry>,
)
    requires
        c.lists_neighbors(src, true, out),
        c.lists_neighbors(dst, false, ins),
    ensures
        (exists|i: int| 0 <= i < out.len() && (#[trigger] out[i]).edge == e && out[i].node == dst)
            <==> (exists|i: int|
            0 <= i < ins.len() && (#[trigger] ins[i]).edge == e && ins[i].node == src),
{
    if exists|i: int| 0 <= i < out.len() && (#[trigger] out[i]).edge == e && out[i].node == dst {
        let i = choose|i: int|
            0 <= i < out.len() && (#[trigger] out[i]).edge == e && out[i].node == dst;
        assert(c.neighbors(out[i], src, true));
        assert(c.edges.dom().contains(e) && end_of(c.edges[e], false) == dst);
        let j = choose|j: int| 0 <= j < ins.len() && (#[trigger] ins[j]).edge == e;
        assert(c.neighbors(ins[j], dst, false));
        assert(ins[j].edge == e && ins[j].node == src);
    }
    if exists|i: int| 0 <= i < ins.len() && (#[trigger] ins[i]).edge == e && ins[i].node == src {
        let i = choose|i: int|
            0 <= i < ins.len() && (#[trigger] ins[i]).edge == e && ins[i].node == src;
        assert(c.neighbors(ins[i], dst, false));
        assert(c.edges.dom().contains(e) && end_of(c.edges[e], true) == src);
        let j = choose|j: int| 0 <= j < out.len() && (#[trigger] out[j]).edge == e;
        assert(c.neighbors(out[j], src, true));
        assert(out[j].edge == e && out[j].node == dst);
    }
}

/// A write adds no more property names than it has properties.
pub proof fn lemma_names_added(before: Seq<Seq<char>>, after: Seq<Seq<char>>, props: Props)
    requires
        names_grow(before, after, props@),
        after.no_duplicates(),
    ensures
        after.len() <= before.len() + props.entries@.len(),
{
    let tail = after.skip(before.len() as int);
    let names = Seq::new(props.entries@.len(), |i: int| props.entries@[i].0@);
    assert(tail.no_duplicates()) by {
        assert forall|i: int, j: int| 0 <= i < tail.len() && 0 <= j < tail.len() && i
            != j implies tail[i] != tail[j] by {
            assert(after[before.len() + i] != after[before.len() + j]);
        }
    }
    assert forall|name: Seq<char>| #[trigger] tail.to_set().contains(
        name,
    ) implies names.to_set().contains(name) by {
        let i = tail.index_of(name);
        assert(after[before.len() + i] == name);
        assert(after.contains(name));
        assert(!before.contains(name)) by {
            if before.contains(name) {
                let j = before.index_of(name);
                assert(after[j] == after[before.len() + i]);
            }
        }
        assert(indexed_name(props@, name));
        let k = choose|k: int| named(props.entries@, k, name);
        assert(names[k] == name);
    }
    tail.unique_seq_to_set();
    names.lemma_cardinality_of_set();
    vstd::set_lib::lemma_len_subset(tail.to_set(), names.to_set());
}

/// A graph has no more nodes than it has given ids, so that its kernels can run while
/// those are few.
pub proof fn lemma_compressible(g: Graph)
    requires
        g.wf(),
        g@.next_node < u32::MAX,
    ensures
        g.compressible(),
{
    lemma_store_lists(g.store);
    lemma_store_sound(g.store);
    let ids = node_list(g@);
    if ids.len() > 0 {
        let last = ids.len() - 1;
        lemma_ascending_at_least(ids, last);
        assert(ids.contains(ids[last]));
        assert(g@.nodes.dom().contains(ids[last]));
    }
}

proof fn lemma_ascending_at_least(ids: Seq<u64>, i: int)
    requires
        ascending(ids),
        0 <= i < ids.len(),
    ensures
        i <= ids[i],
    decreases i,
{
    if i > 0 {
        lemma_ascending_at_least(ids, i - 1);
        assert(ids[i - 1] < ids[i]);
    }
}

} // verus!
