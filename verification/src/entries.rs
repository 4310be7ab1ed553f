//! The order in which the edges into a node are listed: that of their adjacency entries.

use vstd::prelude::*;

use crate::csr::{edges_ascending, entering, CsrSnapshot, Edge};
use crate::keys::{bytes_lt, lemma_bytes_lt_irreflexive, lemma_bytes_lt_total, push_le, read_le};
use crate::schema::{EdgeId, NodeId};
use crate::store::{entry_bytes, lemma_entry_bytes};
use crate::tables::{lemma_bytes_lt_transitive, KeySet};

verus! {

/// A list is sorted by the bytes that stand for its items.
pub open spec fn sorted_by_key<A>(list: Seq<A>, key: spec_fn(A) -> Seq<u8>) -> bool {
    forall|i: int, j: int|
        0 <= i < j < list.len() ==> bytes_lt(key(#[trigger] list[i]), key(#[trigger] list[j]))
}

/// Two sorted lists of the same items are the same list.
pub proof fn lemma_sorted_same<A>(a: Seq<A>, b: Seq<A>, key: spec_fn(A) -> Seq<u8>)
    requires
        sorted_by_key(a, key),
        sorted_by_key(b, key),
        forall|x: A| #[trigger] a.contains(x) ==> b.contains(x),
        forall|x: A| #[trigger] b.contains(x) ==> a.contains(x),
    ensures
        a == b,
    decreases a.len(),
{
    if a.len() == 0 {
        if b.len() > 0 {
            assert(b.contains(b[0]));
        }
        assert(a =~= b);
    } else if b.len() == 0 {
        assert(a.contains(a[0]));
    } else {
        let (x, y) = (a[a.len() - 1], b[b.len() - 1]);
        assert(a.contains(x) && b.contains(y));
        let i = b.index_of(x);
        let j = a.index_of(y);
        if x != y {
            assert(bytes_lt(key(b[i]), key(b[b.len() - 1])));
            assert(bytes_lt(key(a[j]), key(a[a.len() - 1])));
            lemma_bytes_lt_total(key(x), key(y));
            lemma_bytes_lt_irreflexive(key(x));
        }
        let (s, t) = (a.drop_last(), b.drop_last());
        assert forall|n: A| #[trigger] s.contains(n) implies t.contains(n) by {
            let k = s.index_of(n);
            assert(a[k] == n);
            assert(a.contains(n));
            let m = b.index_of(n);
            if m == b.len() - 1 {
                assert(bytes_lt(key(a[k]), key(a[a.len() - 1])));
                lemma_bytes_lt_irreflexive(key(n));
            }
            assert(t[m] == n);
        }
        assert forall|n: A| #[trigger] t.contains(n) implies s.contains(n) by {
            let k = t.index_of(n);
            assert(b[k] == n);
            assert(b.contains(n));
            let m = a.index_of(n);
            if m == a.len() - 1 {
                assert(bytes_lt(key(b[k]), key(b[b.len() - 1])));
                lemma_bytes_lt_irreflexive(key(n));
            }
            assert(s[m] == n);
        }
        lemma_sorted_same(s, t, key);
        assert(a =~= s.push(x));
        assert(b =~= t.push(y));
    }
}

/// The adjacency entry of an edge at the node where it ends.
pub open spec fn edge_key(ids: Seq<NodeId>) -> spec_fn(Edge) -> Seq<u8> {
    |e: Edge| entry_bytes(e.ty, ids[e.src], e.id)
}

/// Whether a list holds the edges into a node in the order of their entries.
pub open spec fn is_entry_row(ids: Seq<NodeId>, edges: Seq<Edge>, v: int, row: Seq<Edge>) -> bool {
    &&& sorted_by_key(row, edge_key(ids))
    &&& forall|e: Edge| #[trigger] row.contains(e) <==> edges.contains(e) && e.dst == v
}

/// The edges into a node in the order of their entries.
pub open spec fn entry_row(ids: Seq<NodeId>, edges: Seq<Edge>, v: int) -> Seq<Edge> {
    choose|row: Seq<Edge>| is_entry_row(ids, edges, v, row)
}

/// Inserts an edge into a sorted row.
proof fn lemma_put(ids: Seq<NodeId>, row: Seq<Edge>, e: Edge) -> (out: Seq<Edge>)
    requires
        sorted_by_key(row, edge_key(ids)),
        forall|f: Edge| #[trigger] row.contains(f) ==> f.id != e.id,
    ensures
        sorted_by_key(out, edge_key(ids)),
        forall|f: Edge| #[trigger] out.contains(f) <==> row.contains(f) || f == e,
    decreases row.len(),
{
    let key = edge_key(ids);
    if row.len() == 0 {
        let out = seq![e];
        assert forall|f: Edge| #[trigger] out.contains(f) <==> row.contains(f) || f == e by {
            assert(out[0] == e);
        }
        out
    } else {
        let last = row[row.len() - 1];
        let rest = row.drop_last();
        assert(row.contains(last));
        lemma_entry_bytes(last.ty, ids[last.src], last.id, e.ty, ids[e.src], e.id);
        lemma_bytes_lt_total(key(last), key(e));
        if bytes_lt(key(last), key(e)) {
            let out = row.push(e);
            assert forall|i: int, j: int| 0 <= i < j < out.len() implies bytes_lt(
                key(#[trigger] out[i]),
                key(#[trigger] out[j]),
            ) by {
                if j == row.len() && i < row.len() - 1 {
                    assert(bytes_lt(key(row[i]), key(row[row.len() - 1])));
                    lemma_bytes_lt_transitive(key(row[i]), key(last), key(e));
                } else if j < row.len() {
                    assert(bytes_lt(key(row[i]), key(row[j])));
                }
            }
            assert forall|f: Edge| #[trigger] out.contains(f) <==> row.contains(f) || f == e by {
                assert(out[row.len() as int] == e);
                if row.contains(f) {
                    let k = row.index_of(f);
                    assert(out[k] == f);
                }
                if out.contains(f) && f != e {
                    let k = out.index_of(f);
                    assert(row[k] == f);
                }
            }
            out
        } else {
            assert forall|f: Edge| #[trigger] rest.contains(f) implies f.id != e.id by {
                let k = rest.index_of(f);
                assert(row[k] == f);
                assert(row.contains(f));
            }
            assert(sorted_by_key(rest, key)) by {
                assert forall|i: int, j: int| 0 <= i < j < rest.len() implies bytes_lt(
                    key(#[trigger] rest[i]),
                    key(#[trigger] rest[j]),
                ) by {
                    assert(bytes_lt(key(row[i]), key(row[j])));
                }
            }
            let part = lemma_put(ids, rest, e);
            let out = part.push(last);
            assert forall|i: int, j: int| 0 <= i < j < out.len() implies bytes_lt(
                key(#[trigger] out[i]),
                key(#[trigger] out[j]),
            ) by {
                if j == part.len() {
                    let f = part[i];
                    assert(part.contains(f));
                    if f != e {
                        let k = rest.index_of(f);
                        assert(bytes_lt(key(row[k]), key(row[row.len() - 1])));
                    }
                } else {
                    assert(bytes_lt(key(part[i]), key(part[j])));
                }
            }
            assert forall|f: Edge| #[trigger] out.contains(f) <==> row.contains(f) || f == e by {
                assert(out[part.len() as int] == last);
                if row.contains(f) {
                    let k = row.index_of(f);
                    if k < rest.len() {
                        assert(rest[k] == f);
                        assert(part.contains(f));
                        let m = part.index_of(f);
                        assert(out[m] == f);
                    }
                }
                if f == e {
                    assert(part.contains(e));
                    let m = part.index_of(e);
                    assert(out[m] == e);
                }
                if out.contains(f) && f != e {
                    let k = out.index_of(f);
                    if k < part.len() {
                        assert(part[k] == f);
                        assert(part.contains(f));
                        let m = rest.index_of(f);
                        assert(row[m] == f);
                    }
                }
            }
            out
        }
    }
}

proof fn lemma_row_exists(ids: Seq<NodeId>, edges: Seq<Edge>, v: int) -> (row: Seq<Edge>)
    requires
        edges_ascending(edges),
    ensures
        is_entry_row(ids, edges, v, row),
    decreases edges.len(),
{
    if edges.len() == 0 {
        Seq::empty()
    } else {
        let rest = edges.drop_last();
        let e = edges[edges.len() - 1];
        assert(edges_ascending(rest)) by {
            assert forall|i: int, j: int| 0 <= i < j < rest.len() implies rest[i].id
                < rest[j].id by {
                assert(edges[i].id < edges[j].id);
            }
        }
        let before = lemma_row_exists(ids, rest, v);
        assert forall|f: Edge| #[trigger] edges.contains(f) <==> rest.contains(f) || f == e by {
            if rest.contains(f) {
                let k = rest.index_of(f);
                assert(edges[k] == f);
            }
            if edges.contains(f) && f != e {
                let k = edges.index_of(f);
                assert(rest[k] == f);
            }
        }
        if e.dst == v {
            assert forall|f: Edge| #[trigger] before.contains(f) implies f.id != e.id by {
                let k = rest.index_of(f);
                assert(edges[k].id < edges[edges.len() - 1].id);
            }
            lemma_put(ids, before, e)
        } else {
            before
        }
    }
}

/// The edges into a node can be listed in the order of their entries, in one way.
pub proof fn lemma_entry_row(ids: Seq<NodeId>, edges: Seq<Edge>, v: int)
    requires
        edges_ascending(edges),
    ensures
        is_entry_row(ids, edges, v, entry_row(ids, edges, v)),
        forall|row: Seq<Edge>| #[trigger]
            is_entry_row(ids, edges, v, row) ==> row == entry_row(ids, edges, v),
{
    let some = lemma_row_exists(ids, edges, v);
    let row = entry_row(ids, edges, v);
    assert(is_entry_row(ids, edges, v, row));
    assert forall|other: Seq<Edge>| #[trigger]
        is_entry_row(ids, edges, v, other) implies other == row by {
        lemma_sorted_same(other, row, edge_key(ids));
    }
}

/// An edge in the row of entries is one of the edges, and joins its source with the node.
pub proof fn lemma_entry_at(ids: Seq<NodeId>, edges: Seq<Edge>, v: int, k: int) -> (i: int)
    requires
        edges_ascending(edges),
        0 <= k < entry_row(ids, edges, v).len(),
    ensures
        0 <= i < edges.len(),
        edges[i] == entry_row(ids, edges, v)[k],
        edges[i].dst == v,
{
    lemma_entry_row(ids, edges, v);
    let row = entry_row(ids, edges, v);
    assert(row.contains(row[k]));
    edges.index_of(row[k])
}

/// An edge into a node has a place in its row of entries.
pub proof fn lemma_entry_of(ids: Seq<NodeId>, edges: Seq<Edge>, v: int, i: int) -> (k: int)
    requires
        edges_ascending(edges),
        0 <= i < edges.len(),
        edges[i].dst == v,
    ensures
        0 <= k < entry_row(ids, edges, v).len(),
        entry_row(ids, edges, v)[k] == edges[i],
{
    lemma_entry_row(ids, edges, v);
    let row = entry_row(ids, edges, v);
    assert(edges.contains(edges[i]));
    assert(row.contains(edges[i]));
    row.index_of(edges[i])
}

/// Whether some of the first `k` edges of a row has this entry.
spec fn keyed(ids: Seq<NodeId>, row: Seq<Edge>, k: int, key: Seq<u8>) -> bool {
    exists|j: int| 0 <= j < k && key == edge_key(ids)(#[trigger] row[j])
}

/// The sources and ids of the edges into a node, in the order of their entries.
#[verifier::spinoff_prover]
pub fn incoming_entries(snap: &CsrSnapshot, v: usize) -> (out: Vec<(usize, EdgeId)>)
    requires
        snap.wf(),
        v < snap.n(),
    ensures
        out@.len() == entry_row(snap.dense_to_id@, snap.edges@, v as int).len(),
        forall|k: int|
            0 <= k < out@.len() ==> {
                let e = entry_row(snap.dense_to_id@, snap.edges@, v as int)[k];
                &&& (#[trigger] out@[k]).0 == e.src
                &&& out@[k].1 == e.id
                &&& out@[k].0 < snap.n()
            },
{
    let ghost ids = snap.dense_to_id@;
    let ghost edges = snap.edges@;
    let ghost row = snap.in_row(v as int);
    let ghost key_of = edge_key(ids);
    let lo: usize = snap.in_row_ptr[v];
    let hi: usize = snap.in_row_ptr[v + 1];
    let mut set: KeySet = KeySet::new();
    let mut k: usize = lo;
    while k < hi
        invariant
            snap.wf(),
            ids == snap.dense_to_id@,
            v < snap.n(),
            row == snap.in_row(v as int),
            key_of == edge_key(ids),
            lo == snap.in_row_ptr@[v as int],
            hi == snap.in_row_ptr@[v + 1],
            lo <= k <= hi <= snap.edges@.len(),
            set.wf(),
            forall|key: Seq<u8>| #[trigger] set.has(key) <==> keyed(ids, row, k - lo, key),
        decreases hi - k,
    {
        let src: usize = snap.in_col_idx[k] as usize;
        let mut key: Vec<u8> = Vec::new();
        push_le(&mut key, snap.in_edge_type[k] as u64, 4);
        push_le(&mut key, snap.dense_to_id[src], 8);
        push_le(&mut key, snap.in_edge_id[k], 8);
        let ghost here = row[k - lo];
        let ghost bytes = key@;
        assert(bytes =~= key_of(here));
        let ghost before = set;
        set.insert(key);
        proof {
            assert forall|other: Seq<u8>| #[trigger] set.has(other) <==> keyed(
                ids,
                row,
                k - lo + 1,
                other,
            ) by {
                assert(before.has(other) <==> keyed(ids, row, k - lo, other));
                if keyed(ids, row, k - lo, other) {
                    let j = choose|j: int|
                        0 <= j < k - lo && other == key_of(#[trigger] row[j]);
                    assert(0 <= j < k - lo + 1 && other == key_of(row[j]));
                }
                if keyed(ids, row, k - lo + 1, other) && other != bytes {
                    let j = choose|j: int|
                        0 <= j < k - lo + 1 && other == key_of(#[trigger] row[j]);
                    assert(j < k - lo);
                }
                if other == bytes {
                    assert(other == key_of(row[k - lo]));
                }
            }
        }
        k = k + 1;
    }
    let ghost ks = set.keys@;
    let mut out: Vec<(usize, EdgeId)> = Vec::new();
    let mut listed: Ghost<Seq<Edge>> = Ghost(Seq::empty());
    let mut i: usize = 0;
    while i < set.keys.len()
        invariant
            snap.wf(),
            ids == snap.dense_to_id@,
            v < snap.n(),
            row == snap.in_row(v as int),
            key_of == edge_key(ids),
            set.wf(),
            ks == set.keys@,
            forall|key: Seq<u8>| #[trigger] set.has(key) <==> keyed(ids, row, row.len() as int, key),
            i <= ks.len(),
            out@.len() == i,
            listed@.len() == i,
            forall|j: int|
                0 <= j < i ==> key_of(#[trigger] listed@[j]) == ks[j]@ && row.contains(listed@[j])
                    && out@[j].0 == listed@[j].src && out@[j].1 == listed@[j].id && out@[j].0
                    < snap.n(),
        decreases ks.len() - i,
    {
        let bytes: &[u8] = set.keys[i].as_slice();
        assert(bytes@ == ks[i as int]@);
        assert(set.has(ks[i as int]@));
        assert(keyed(ids, row, row.len() as int, bytes@));
        let ghost j = choose|j: int|
            0 <= j < row.len() && bytes@ == edge_key(ids)(#[trigger] row[j]);
        let ghost e = row[j];
        let ghost had = (out@, listed@);
        proof {
            assert(0 <= j < row.len() && bytes@ == key_of(e));
            lemma_entry_bytes(e.ty, ids[e.src], e.id, e.ty, ids[e.src], e.id);
            assert(row.contains(e));
            assert(e.src == snap.in_col_idx@[snap.in_row_ptr@[v as int] + j]);
            assert(0 <= e.src < snap.n());
        }
        let other: NodeId = read_le(bytes, 4, 12);
        let id: EdgeId = read_le(bytes, 12, 20);
        let src: usize = match snap.dense(other) {
            Some(d) => d,
            None => 0,
        };
        proof {
            assert(ids[e.src] == other);
            assert(ids.contains(other));
            crate::csr::lemma_index_unique(ids, e.src);
            crate::csr::lemma_index_unique(ids, src as int);
        }
        listed = Ghost(listed@.push(e));
        out.push((src, id));
        proof {
            assert forall|q: int| 0 <= q < i + 1 implies key_of(#[trigger] listed@[q]) == ks[q]@
                && row.contains(listed@[q]) && out@[q].0 == listed@[q].src && out@[q].1
                == listed@[q].id && out@[q].0 < snap.n() by {
                if q < i {
                    assert(listed@[q] == had.1[q] && out@[q] == had.0[q]);
                } else {
                    assert(listed@[q] == e);
                }
            }
        }
        i = i + 1;
    }
    proof {
        let done = listed@;
        assert(sorted_by_key(done, key_of)) by {
            assert forall|a: int, b: int| 0 <= a < b < done.len() implies bytes_lt(
                key_of(#[trigger] done[a]),
                key_of(#[trigger] done[b]),
            ) by {
                assert(bytes_lt(ks[a]@, ks[b]@));
            }
        }
        assert forall|e: Edge| #[trigger] done.contains(e) <==> edges.contains(e) && e.dst == v by {
            if done.contains(e) {
                let a = done.index_of(e);
                assert(row.contains(done[a]));
                let q = row.index_of(e);
                edges.lemma_filter_pred(entering(v as int), q);
                edges.lemma_filter_contains_rev(entering(v as int), e);
            }
            if edges.contains(e) && e.dst == v {
                let q = edges.index_of(e);
                edges.lemma_filter_contains(entering(v as int), q);
                let p = row.index_of(e);
                assert(row[p] == e);
                assert(keyed(ids, row, row.len() as int, key_of(e)));
                assert(set.has(key_of(e)));
                let a = choose|a: int| 0 <= a < ks.len() && (#[trigger] ks[a])@ == key_of(e);
                let f = done[a];
                assert(key_of(f) == ks[a]@);
                lemma_entry_bytes(e.ty, ids[e.src], e.id, f.ty, ids[f.src], f.id);
                let w = row.index_of(f);
                edges.lemma_filter_pred(entering(v as int), w);
                edges.lemma_filter_contains_rev(entering(v as int), f);
                let z = edges.index_of(f);
                assert(edges[q].id == edges[z].id);
                assert(q == z);
            }
        }
        assert(is_entry_row(ids, edges, v as int, done));
        lemma_entry_row(ids, edges, v as int);
    }
    out
}

} // verus!
