//! How the statistics of a text index follow its documents.

use vstd::prelude::*;

use crate::csr::ascending;
use crate::graph_text::texts_under;
use crate::image::lemma_ascending_unique;
use crate::schema::{LabelId, NodeId, PropKeyId};
use crate::store::Content;
use crate::text::{
    counted, doc_len, documents_of, lists_documents, terms_of, texts_in, total_len, Terms, TextDef,
};
use crate::text_sync::{in_step, shows, Splitting};
use crate::value::Val;

verus! {

/// A document is as long as its parts together, and a term as its frequency says.
pub proof fn lemma_length_adds_up(a: Terms, b: Terms, term: Seq<char>, frequency: u32)
    ensures
        doc_len(a + b) == doc_len(a) + doc_len(b),
        doc_len(seq![(term, frequency)]) == frequency,
    decreases b.len(),
{
    let one = seq![(term, frequency)];
    assert(one.drop_last() =~= Seq::empty());
    assert(doc_len(Seq::empty()) == 0);
    if b.len() == 0 {
        assert(a + b =~= a);
    } else {
        assert((a + b).drop_last() =~= a + b.drop_last());
        lemma_length_adds_up(a, b.drop_last(), term, frequency);
    }
}

/// The statistics count every document once, and one more document makes them one more and
/// as much longer as it is.
pub proof fn lemma_stats_follow_documents(
    d: Map<NodeId, Terms>,
    n: nat,
    total: nat,
    node: NodeId,
    terms: Terms,
    more: nat,
    longer: nat,
)
    requires
        counted(d, n, total),
        !d.dom().contains(node),
        counted(d.insert(node, terms), more, longer),
    ensures
        d.dom().finite() && n == d.dom().len(),
        more == n + 1,
        longer == total + doc_len(terms),
{
    let now = d.insert(node, terms);
    let a = choose|a: Seq<NodeId>| #[trigger]
        lists_documents(d, a) && a.len() == n && total_len(d, a, n as int) == total;
    let b = choose|b: Seq<NodeId>| #[trigger]
        lists_documents(now, b) && b.len() == more && total_len(now, b, more as int) == longer;
    assert(a.no_duplicates());
    a.unique_seq_to_set();
    assert(a.to_set() =~= d.dom());
    assert(now.dom().contains(node));
    assert(b.contains(node));
    let i = b.index_of(node);
    let rest = b.remove(i);
    assert(ascending(rest)) by {
        assert forall|x: int, y: int| 0 <= x < y < rest.len() implies rest[x] < rest[y] by {
            let p = if x < i {
                x
            } else {
                x + 1
            };
            let q = if y < i {
                y
            } else {
                y + 1
            };
            assert(rest[x] == b[p] && rest[y] == b[q]);
        }
    }
    assert forall|x: NodeId| #[trigger] rest.contains(x) <==> a.contains(x) by {
        if rest.contains(x) {
            let j = rest.index_of(x);
            let p = if j < i {
                j
            } else {
                j + 1
            };
            assert(b[p] == x);
            assert(b.contains(x));
            assert(b[p] != b[i]);
            assert(d.dom().contains(x));
        }
        if a.contains(x) {
            assert(d.dom().contains(x));
            assert(now.dom().contains(x));
            assert(b.contains(x));
            let j = b.index_of(x);
            if j < i {
                assert(rest[j] == x);
            } else {
                assert(rest[j - 1] == x);
            }
        }
    }
    lemma_ascending_unique(rest, a);
    lemma_total_without(d, node, terms, b, i, more as int);
}

proof fn lemma_total_without(
    d: Map<NodeId, Terms>,
    node: NodeId,
    terms: Terms,
    list: Seq<NodeId>,
    i: int,
    k: int,
)
    requires
        ascending(list),
        0 <= i < list.len(),
        list[i] == node,
        0 <= k <= list.len(),
    ensures
        k <= i ==> total_len(d.insert(node, terms), list, k) == total_len(d, list.remove(i), k),
        k > i ==> total_len(d.insert(node, terms), list, k) == total_len(d, list.remove(i), k - 1)
            + doc_len(terms),
    decreases k,
{
    if k > 0 {
        lemma_total_without(d, node, terms, list, i, k - 1);
        let x = list[k - 1];
        if k - 1 < i {
            assert(list[k - 1] < list[i]);
            assert(list.remove(i)[k - 1] == x);
        } else if k - 1 > i {
            assert(list[i] < list[k - 1]);
            assert(list.remove(i)[k - 2] == x);
        }
    }
}

/// The texts that the indexes on a label take from a node are those of the indexed
/// properties in which it has a string.
pub proof fn lemma_texts_taken(
    indexes: Seq<(LabelId, PropKeyId)>,
    keys: Seq<Seq<char>>,
    label: LabelId,
    props: Map<Seq<char>, Val>,
    p: PropKeyId,
    text: Seq<char>,
)
    ensures
        texts_in(indexes, keys, label, props).contains((p, text)) <==> indexes.contains((label, p))
            && p < keys.len() && props.dom().contains(keys[p as int]) && props[keys[p as int]]
            == Val::Str(text),
    decreases indexes.len(),
{
    if indexes.len() > 0 {
        let head = indexes.drop_last();
        let before = texts_in(head, keys, label, props);
        let now = texts_in(indexes, keys, label, props);
        let last = indexes.last();
        lemma_texts_taken(head, keys, label, props, p, text);
        assert(indexes.contains((label, p)) <==> head.contains((label, p)) || last == (label, p)) by {
            if indexes.contains((label, p)) {
                let i = indexes.index_of((label, p));
                if i < head.len() {
                    assert(head[i] == (label, p));
                }
            }
            if head.contains((label, p)) {
                let i = head.index_of((label, p));
                assert(indexes[i] == (label, p));
            }
            if last == (label, p) {
                assert(indexes[indexes.len() - 1] == (label, p));
            }
        }
        if now != before {
            let added = now.last();
            assert(now == before.push(added));
            assert(now.contains((p, text)) <==> before.contains((p, text)) || added == (p, text)) by {
                if now.contains((p, text)) {
                    let i = now.index_of((p, text));
                    if i < before.len() {
                        assert(before[i] == (p, text));
                    }
                }
                if before.contains((p, text)) {
                    let i = before.index_of((p, text));
                    assert(now[i] == (p, text));
                }
                if added == (p, text) {
                    assert(now[before.len() as int] == (p, text));
                }
            }
        } else {
            assert(now.len() == before.len());
        }
    } else {
        assert(!indexes.contains((label, p)));
    }
}

/// A text index that is in step holds a document for a node exactly where the node carries
/// the label, has a string in the property, and the string has terms; the document is those
/// terms.
pub proof fn lemma_documents_in_step(
    defs: Seq<TextDef>,
    c: Content,
    terms: Splitting,
    i: int,
    id: NodeId,
    text: Seq<char>,
)
    requires
        in_step(defs, c, terms),
        0 <= i < defs.len(),
    ensures
        ({
            let (d, name) = (defs[i], c.keys[defs[i].prop as int]);
            let there = c.nodes.dom().contains(id) && c.nodes[id].labels.contains(d.label)
                && c.nodes[id].props.dom().contains(name);
            &&& d.docs.dom().contains(id) ==> there && c.nodes[id].props[name] is Str
            &&& there && c.nodes[id].props[name] == Val::Str(text) ==> (d.docs.dom().contains(id)
                <==> doc_len(terms(text, d.language)) > 0) && (d.docs.dom().contains(id)
                ==> d.docs[id] == terms(text, d.language))
        }),
{
    assert(shows(defs[i], c, terms, id));
    assert(defs[i].prop < c.keys.len());
}

/// A list of documents leaves each node the last one with terms that it is listed with.
pub proof fn lemma_documents_listed(
    list: Seq<(NodeId, Vec<(String, u32)>)>,
    i: int,
)
    requires
        0 <= i < list.len(),
        doc_len(terms_of(list[i].1@)) > 0,
        forall|j: int|
            i < j < list.len() ==> (#[trigger] list[j]).0 != list[i].0 || doc_len(
                terms_of(list[j].1@),
            ) == 0,
    ensures
        documents_of(list).dom().contains(list[i].0),
        documents_of(list)[list[i].0] == terms_of(list[i].1@),
    decreases list.len(),
{
    let head = list.drop_last();
    if i < list.len() - 1 {
        assert(head[i] == list[i]);
        assert forall|j: int| i < j < head.len() implies (#[trigger] head[j]).0 != head[i].0
            || doc_len(terms_of(head[j].1@)) == 0 by {
            assert(head[j] == list[j]);
        }
        lemma_documents_listed(head, i);
        assert(list[list.len() - 1] == list.last());
    }
}

/// The texts that are taken from a node are those that the indexes on its labels take.
pub proof fn lemma_texts_taken_under_labels(
    pairs: Seq<(LabelId, PropKeyId)>,
    keys: Seq<Seq<char>>,
    labels: Seq<LabelId>,
    props: Map<Seq<char>, Val>,
    l: LabelId,
    p: PropKeyId,
    text: Seq<char>,
)
    ensures
        texts_under(pairs, keys, labels, props).contains((l, p, text)) <==> labels.contains(l)
            && pairs.contains((l, p)) && p < keys.len() && props.dom().contains(keys[p as int])
            && props[keys[p as int]] == Val::Str(text),
    decreases labels.len(),
{
    lemma_texts_taken(pairs, keys, l, props, p, text);
    let now = texts_under(pairs, keys, labels, props);
    let x = (l, p, text);
    if labels.len() > 0 {
        let head = labels.drop_last();
        let last = labels.last();
        let before = texts_under(pairs, keys, head, props);
        let taken = texts_in(pairs, keys, last, props);
        let more = taken.map_values(|t: (PropKeyId, Seq<char>)| (last, t.0, t.1));
        lemma_texts_taken_under_labels(pairs, keys, head, props, l, p, text);
        assert(now == before + more);
        assert(labels.contains(l) <==> head.contains(l) || last == l) by {
            if labels.contains(l) {
                let i = labels.index_of(l);
                if i < head.len() {
                    assert(head[i] == l);
                }
            }
            if head.contains(l) {
                let i = head.index_of(l);
                assert(labels[i] == l);
            }
            if last == l {
                assert(labels[labels.len() - 1] == l);
            }
        }
        assert(more.contains(x) <==> last == l && taken.contains((p, text))) by {
            if more.contains(x) {
                let i = more.index_of(x);
                assert(taken[i] == (p, text));
            }
            if last == l && taken.contains((p, text)) {
                let i = taken.index_of((p, text));
                assert(more[i] == x);
            }
        }
        assert(now.contains(x) <==> before.contains(x) || more.contains(x)) by {
            if now.contains(x) {
                let i = now.index_of(x);
                if i < before.len() {
                    assert(before[i] == x);
                } else {
                    assert(more[i - before.len()] == x);
                }
            }
            if before.contains(x) {
                let i = before.index_of(x);
                assert(now[i] == x);
            }
            if more.contains(x) {
                let i = more.index_of(x);
                assert(now[before.len() + i] == x);
            }
        }
    }
}

} // verus!
