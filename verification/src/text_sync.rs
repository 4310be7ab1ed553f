//! Keeping the text indexes in step with the records.
//!
//! The writes here take the function that splits a text into terms, and leave every
//! text index with the documents of the nodes that are there.

use vstd::prelude::*;

use crate::error::Error;
use crate::graph::{same_node, Graph, WriteTxn};
use crate::laws::lemma_store_sound;
use crate::schema::{LabelId, NodeId, PropKeyId};
use crate::store::{names_of, Content, NodeRecord};
use crate::tables::{number_of_name, Props};
use crate::text::{
    doc_len, documents_of, has_text, lemma_text_place, terms_of, text_at, text_place,
    text_position, TextDef, Terms,
};
use crate::value::{PropValue, Val};

verus! {

/// What a text is split into, by language.
pub type Splitting = spec_fn(Seq<char>, u8) -> Terms;

/// A function splits every text, into no more terms than can be counted.
pub open spec fn splits<F: Fn(&str, u8) -> Vec<(String, u32)>>(tokenize: F) -> bool {
    &&& forall|t: &str, language: u8| #[trigger] tokenize.requires((t, language))
    &&& forall|t: &str, language: u8, out: Vec<(String, u32)>| #[trigger]
        tokenize.ensures((t, language), out) ==> doc_len(terms_of(out@)) <= u32::MAX
}

/// A function splits texts in this way.
pub open spec fn splits_as<F: Fn(&str, u8) -> Vec<(String, u32)>>(
    tokenize: F,
    terms: Splitting,
) -> bool {
    forall|t: &str, language: u8, out: Vec<(String, u32)>| #[trigger]
        tokenize.ensures((t, language), out) ==> terms_of(out@) == terms(t@, language)
}

/// The text that a node has in a property under a label.
pub open spec fn text_under(c: Content, l: LabelId, p: PropKeyId, id: NodeId) -> Option<
    Seq<char>,
> {
    let props = c.nodes[id].props;
    let name = c.keys[p as int];
    if c.nodes.dom().contains(id) && c.nodes[id].labels.contains(l) && p < c.keys.len()
        && props.dom().contains(name) {
        match props[name] {
            Val::Str(t) => Some(t),
            _ => None,
        }
    } else {
        None
    }
}

/// Whether a text index holds the right document for a node, or rightly none.
pub open spec fn shows(d: TextDef, c: Content, terms: Splitting, id: NodeId) -> bool {
    match text_under(c, d.label, d.prop, id) {
        Some(t) => {
            &&& d.docs.dom().contains(id) <==> doc_len(terms(t, d.language)) > 0
            &&& d.docs.dom().contains(id) ==> d.docs[id] == terms(t, d.language)
        },
        None => !d.docs.dom().contains(id),
    }
}

/// Every text index is on a property that has a number.
pub open spec fn numbered(defs: Seq<TextDef>, c: Content) -> bool {
    forall|i: int| 0 <= i < defs.len() ==> (#[trigger] defs[i]).prop < c.keys.len()
}

/// Every text index holds the documents of the nodes that are there.
pub open spec fn in_step(defs: Seq<TextDef>, c: Content, terms: Splitting) -> bool {
    &&& numbered(defs, c)
    &&& forall|i: int, id: NodeId| 0 <= i < defs.len() ==> #[trigger] shows(defs[i], c, terms, id)
}

/// The text indexes are on the same properties of the same labels, in the same languages.
pub open spec fn same_texts(a: Seq<TextDef>, b: Seq<TextDef>) -> bool {
    &&& a.len() == b.len()
    &&& forall|i: int|
        0 <= i < a.len() ==> (#[trigger] a[i]).label == b[i].label && a[i].prop == b[i].prop
            && a[i].language == b[i].language
}

/// What the text indexes hold follows from the records: those that are in step with the
/// same records, for the same properties, are the same.
pub proof fn lemma_in_step_unique(
    a: Seq<TextDef>,
    b: Seq<TextDef>,
    c: Content,
    terms: Splitting,
)
    requires
        same_texts(a, b),
        in_step(a, c, terms),
        in_step(b, c, terms),
    ensures
        a == b,
{
    assert forall|i: int| 0 <= i < a.len() implies a[i] == b[i] by {
        let (x, y) = (a[i].docs, b[i].docs);
        assert(a[i].label == b[i].label);
        assert forall|id: NodeId| #[trigger] x.dom().contains(id) <==> y.dom().contains(id) by {
            assert(shows(a[i], c, terms, id));
            assert(shows(b[i], c, terms, id));
        }
        assert forall|id: NodeId| x.dom().contains(id) implies #[trigger] x[id] == y[id] by {
            assert(shows(a[i], c, terms, id));
            assert(shows(b[i], c, terms, id));
        }
        assert(x.dom() =~= y.dom());
        assert(x =~= y);
    }
    assert(a =~= b);
}

/// Every text index holds the right document for a node, or rightly none.
pub open spec fn shown(defs: Seq<TextDef>, c: Content, terms: Splitting, node: NodeId) -> bool {
    forall|i: int| 0 <= i < defs.len() ==> shows(#[trigger] defs[i], c, terms, node)
}

/// Every text index holds the documents of the other nodes, and none of these.
pub open spec fn in_step_but(
    defs: Seq<TextDef>,
    c: Content,
    terms: Splitting,
    nodes: Seq<NodeId>,
) -> bool {
    &&& numbered(defs, c)
    &&& forall|i: int, id: NodeId|
        0 <= i < defs.len() && !nodes.contains(id) ==> #[trigger] shows(defs[i], c, terms, id)
    &&& forall|i: int, id: NodeId|
        0 <= i < defs.len() && nodes.contains(id)
            ==> !#[trigger] defs[i].docs.dom().contains(id)
}

/// The records differ in these nodes at most, and names are only added.
spec fn same_but(c: Content, now: Content, nodes: Seq<NodeId>) -> bool {
    &&& c.keys.is_prefix_of(now.keys)
    &&& forall|id: NodeId| !nodes.contains(id) ==> #[trigger] same_node(c, now, id)
}

proof fn lemma_others_shown(
    defs: Seq<TextDef>,
    c: Content,
    now: Content,
    terms: Splitting,
    nodes: Seq<NodeId>,
)
    requires
        in_step_but(defs, c, terms, nodes),
        same_but(c, now, nodes),
    ensures
        in_step_but(defs, now, terms, nodes),
{
    assert forall|i: int, id: NodeId|
        0 <= i < defs.len() && !nodes.contains(id) implies #[trigger] shows(
        defs[i],
        now,
        terms,
        id,
    ) by {
        let d = defs[i];
        assert(shows(d, c, terms, id));
        assert(d.prop < c.keys.len());
        assert(now.keys[d.prop as int] == c.keys[d.prop as int]);
        assert(same_node(c, now, id));
        assert(text_under(now, d.label, d.prop, id) == text_under(c, d.label, d.prop, id));
    }
}

/// Without the documents of one more node, text indexes are in step but for it.
proof fn lemma_taken_out(
    defs: Seq<TextDef>,
    c: Content,
    terms: Splitting,
    nodes: Seq<NodeId>,
    node: NodeId,
)
    requires
        in_step_but(defs, c, terms, nodes),
    ensures
        in_step_but(without_node_docs(defs, node), c, terms, nodes.push(node)),
{
    let rest = without_node_docs(defs, node);
    let more = nodes.push(node);
    assert forall|id: NodeId| #[trigger] more.contains(id) <==> nodes.contains(id) || id == node by {
        lemma_pushed_contains(nodes, node, id);
    }
    assert forall|i: int, id: NodeId|
        0 <= i < rest.len() && !more.contains(id) implies #[trigger] shows(
        rest[i],
        c,
        terms,
        id,
    ) by {
        assert(shows(defs[i], c, terms, id));
        assert(defs[i].docs.remove(node).dom().contains(id) == defs[i].docs.dom().contains(id));
    }
    assert forall|i: int, id: NodeId|
        0 <= i < rest.len() && more.contains(id) implies !#[trigger] rest[i].docs.dom().contains(
        id,
    ) by {
        if id != node {
            assert(!defs[i].docs.dom().contains(id));
        }
    }
    assert forall|i: int| 0 <= i < rest.len() implies (#[trigger] rest[i]).prop < c.keys.len() by {
        assert(defs[i].prop < c.keys.len());
    }
}

proof fn lemma_pushed_contains(nodes: Seq<NodeId>, node: NodeId, id: NodeId)
    ensures
        nodes.push(node).contains(id) <==> nodes.contains(id) || id == node,
{
    let more = nodes.push(node);
    assert(more[nodes.len() as int] == node);
    if nodes.contains(id) {
        let k = nodes.index_of(id);
        assert(more[k] == id);
    }
    if more.contains(id) && id != node {
        let k = more.index_of(id);
        assert(nodes[k] == id);
    }
}

/// With the documents of the last of the nodes, text indexes are in step but for the
/// others.
proof fn lemma_put_in(
    defs: Seq<TextDef>,
    c: Content,
    terms: Splitting,
    nodes: Seq<NodeId>,
    node: NodeId,
)
    requires
        in_step_but(without_node_docs(defs, node), c, terms, nodes.push(node)),
        shown(defs, c, terms, node),
        !nodes.contains(node),
    ensures
        in_step_but(defs, c, terms, nodes),
{
    let rest = without_node_docs(defs, node);
    let more = nodes.push(node);
    assert forall|id: NodeId| #[trigger] more.contains(id) <==> nodes.contains(id) || id == node by {
        lemma_pushed_contains(nodes, node, id);
    }
    assert forall|i: int, id: NodeId|
        0 <= i < defs.len() && !nodes.contains(id) implies #[trigger] shows(
        defs[i],
        c,
        terms,
        id,
    ) by {
        if id != node {
            assert(shows(rest[i], c, terms, id));
            assert(rest[i].docs.dom().contains(id) == defs[i].docs.dom().contains(id));
        }
    }
    assert forall|i: int, id: NodeId|
        0 <= i < defs.len() && nodes.contains(id) implies !#[trigger] defs[i].docs.dom().contains(
        id,
    ) by {
        assert(!rest[i].docs.dom().contains(id));
    }
    assert forall|i: int| 0 <= i < defs.len() implies (#[trigger] defs[i]).prop < c.keys.len() by {
        assert(rest[i].prop < c.keys.len());
    }
}

/// In step but for no node is in step.
proof fn lemma_but_none(defs: Seq<TextDef>, c: Content, terms: Splitting)
    ensures
        in_step_but(defs, c, terms, Seq::empty()) <==> in_step(defs, c, terms),
{
    let none = Seq::<NodeId>::empty();
    if in_step_but(defs, c, terms, none) {
        assert forall|i: int, id: NodeId| 0 <= i < defs.len() implies #[trigger] shows(
            defs[i],
            c,
            terms,
            id,
        ) by {
            assert(!none.contains(id));
        }
    }
}

/// Taking a node's documents out, changing that node, and putting its documents in
/// keeps the text indexes in step.
proof fn lemma_one_node(
    defs: Seq<TextDef>,
    c: Content,
    now: Content,
    out: Seq<TextDef>,
    terms: Splitting,
    node: NodeId,
)
    requires
        in_step(defs, c, terms),
        same_but(c, now, seq![node]),
        without_node_docs(out, node) == without_node_docs(defs, node),
        shown(out, now, terms, node),
    ensures
        in_step(out, now, terms),
{
    let none = Seq::<NodeId>::empty();
    lemma_but_none(defs, c, terms);
    lemma_taken_out(defs, c, terms, none, node);
    assert(none.push(node) =~= seq![node]);
    lemma_others_shown(without_node_docs(defs, node), c, now, terms, seq![node]);
    lemma_put_in(out, now, terms, none, node);
    lemma_but_none(out, now, terms);
}

/// Text indexes in step hold no document of a node that is not there.
proof fn lemma_not_there(defs: Seq<TextDef>, c: Content, terms: Splitting, node: NodeId)
    requires
        in_step(defs, c, terms),
        !c.nodes.dom().contains(node),
    ensures
        without_node_docs(defs, node) == defs,
        forall|i: int| 0 <= i < defs.len() ==> !(#[trigger] defs[i]).docs.dom().contains(node),
{
    assert forall|i: int| 0 <= i < defs.len() implies !(#[trigger] defs[i]).docs.dom().contains(
        node,
    ) && without_node_docs(defs, node)[i] == defs[i] by {
        assert(shows(defs[i], c, terms, node));
        assert(defs[i].docs.remove(node) =~= defs[i].docs);
    }
    assert(without_node_docs(defs, node) =~= defs);
}

/// The text indexes without the documents of one node.
pub open spec fn without_node_docs(defs: Seq<TextDef>, node: NodeId) -> Seq<TextDef> {
    defs.map_values(|d: TextDef| TextDef { docs: d.docs.remove(node), ..d })
}

proof fn lemma_same_without(defs: Seq<TextDef>, node: NodeId)
    ensures
        same_texts(without_node_docs(defs, node), defs),
        same_texts(defs, without_node_docs(defs, node)),
{
    let out = without_node_docs(defs, node);
    assert forall|i: int| 0 <= i < defs.len() implies (#[trigger] out[i]).label == defs[i].label
        && out[i].prop == defs[i].prop && out[i].language == defs[i].language by {}
    assert forall|i: int| 0 <= i < defs.len() implies (#[trigger] defs[i]).label == out[i].label
        && defs[i].prop == out[i].prop && defs[i].language == out[i].language by {}
}

proof fn lemma_docs_out(defs: Seq<TextDef>, node: NodeId)
    ensures
        forall|i: int|
            0 <= i < defs.len() ==> !(#[trigger] without_node_docs(
                defs,
                node,
            )[i]).docs.dom().contains(node),
{
}

/// A write on one node changes that node alone.
proof fn lemma_one_changed(c: Content, now: Content, node: NodeId)
    requires
        c.keys.is_prefix_of(now.keys),
        forall|id: NodeId| id != node ==> #[trigger] same_node(c, now, id),
    ensures
        same_but(c, now, seq![node]),
{
    assert forall|id: NodeId| !seq![node].contains(id) implies #[trigger] same_node(c, now, id) by {
        if id == node {
            assert(seq![node][0] == id);
        }
    }
}

fn carries_number(labels: &Vec<LabelId>, l: LabelId) -> (r: bool)
    ensures
        r == labels@.contains(l),
{
    let mut i: usize = 0;
    while i < labels.len()
        invariant
            i <= labels@.len(),
            forall|j: int| 0 <= j < i ==> labels@[j] != l,
        decreases labels@.len() - i,
    {
        if labels[i] == l {
            return true;
        }
        i = i + 1;
    }
    false
}

impl Graph {
    /// The text that a node has in a property under a label.
    fn text_at(&self, id: NodeId, l: LabelId, p: PropKeyId) -> (r: Option<String>)
        requires
            self.wf(),
        ensures
            match r {
                Some(t) => text_under(self@, l, p, id) == Some(t@),
                None => text_under(self@, l, p, id) is None,
            },
    {
        let record: &NodeRecord = match self.store.nodes.get(id) {
            Some(record) => record,
            None => {
                return None;
            },
        };
        assert(self.store.nodes@.dom().contains(id));
        if !carries_number(&record.labels, l) || p as usize >= self.store.prop_keys.names.len() {
            return None;
        }
        assert(self@.keys[p as int] == self.store.prop_keys.names@[p as int]@);
        match record.props.get(self.store.prop_keys.names[p as usize].as_str()) {
            Some(PropValue::Str(t)) => Some(t.clone()),
            _ => None,
        }
    }

    /// Adds the documents of a node to the text indexes.
    pub fn index_node_fts<F: Fn(&str, u8) -> Vec<(String, u32)>>(
        &mut self,
        node: NodeId,
        tokenize: &F,
    )
        requires
            old(self).wf(),
            splits(*tokenize),
            forall|i: int|
                0 <= i < old(self).texts@.len() ==> !(#[trigger] old(
                    self,
                ).texts@[i]).docs.dom().contains(node),
        ensures
            final(self).wf(),
            *final(self) == (Graph { texts: final(self).texts, ..*old(self) }),
            without_node_docs(final(self).texts@, node) == old(self).texts@,
            forall|terms: Splitting| #[trigger]
                splits_as(*tokenize, terms) ==> shown(
                    final(self).texts@,
                    old(self)@,
                    terms,
                    node,
                ),
    {
        let ghost before = *self;
        let ghost defs = before.texts@;
        let ghost c = self@;
        let mut i: usize = 0;
        while i < self.texts.list.len()
            invariant
                before.wf(),
                self.wf(),
                *self == (Graph { texts: self.texts, ..before }),
                splits(*tokenize),
                defs == before.texts@,
                c == before@,
                i <= self.texts.list@.len(),
                self.texts@.len() == defs.len(),
                forall|j: int| i <= j < defs.len() ==> #[trigger] self.texts@[j] == defs[j],
                forall|j: int|
                    0 <= j < defs.len() ==> !(#[trigger] defs[j]).docs.dom().contains(node),
                forall|j: int|
                    0 <= j < i ==> (#[trigger] self.texts@[j]).label == defs[j].label
                        && self.texts@[j].prop == defs[j].prop && self.texts@[j].language
                        == defs[j].language && self.texts@[j].docs.remove(node) == defs[j].docs,
                forall|terms: Splitting, j: int|
                    splits_as(*tokenize, terms) && 0 <= j < i ==> #[trigger] shows(
                        self.texts@[j],
                        c,
                        terms,
                        node,
                    ),
            decreases self.texts.list@.len() - i,
        {
            let ghost now = self.texts@;
            assert(now[i as int] == self.texts.list@[i as int].def());
            assert(now[i as int] == defs[i as int]);
            let (l, p, language): (LabelId, PropKeyId, u8) = (
                self.texts.list[i].label,
                self.texts.list[i].prop,
                self.texts.list[i].language,
            );
            match self.text_at(node, l, p) {
                Some(t) => {
                    let text: &str = t.as_str();
                    let terms: Vec<(String, u32)> = tokenize(text, language);
                    self.texts.add_at(i, node, &terms);
                    proof {
                        let d = self.texts@[i as int];
                        let found = terms_of(terms@);
                        assert(d.docs.remove(node) =~= defs[i as int].docs);
                        assert forall|ts: Splitting, j: int|
                            splits_as(*tokenize, ts) && 0 <= j < i + 1 implies #[trigger] shows(
                            self.texts@[j],
                            c,
                            ts,
                            node,
                        ) by {
                            if j < i {
                                assert(self.texts@[j] == now[j]);
                                assert(shows(now[j], c, ts, node));
                            } else {
                                assert(tokenize.ensures((text, language), terms));
                                assert(found == ts(t@, language));
                            }
                        }
                    }
                },
                None => {
                    proof {
                        let d = self.texts@[i as int];
                        assert(d.docs.remove(node) =~= d.docs);
                        assert forall|ts: Splitting, j: int|
                            splits_as(*tokenize, ts) && 0 <= j < i + 1 implies #[trigger] shows(
                            self.texts@[j],
                            c,
                            ts,
                            node,
                        ) by {}
                    }
                },
            }
            assert(self.texts@.len() == self.texts.list@.len());
            i = i + 1;
        }
        proof {
            assert(without_node_docs(self.texts@, node) =~= defs);
            assert forall|terms: Splitting| #[trigger] splits_as(*tokenize, terms) implies shown(
                self.texts@,
                c,
                terms,
                node,
            ) by {
                assert forall|j: int| 0 <= j < self.texts@.len() implies shows(
                    #[trigger] self.texts@[j],
                    c,
                    terms,
                    node,
                ) by {}
            }
        }
    }

    /// Removes the documents of a node from the text indexes.
    pub fn delete_node_fts<F: Fn(&str, u8) -> Vec<(String, u32)>>(
        &mut self,
        node: NodeId,
        tokenize: &F,
    )
        requires
            old(self).wf(),
            splits(*tokenize),
            exists|terms: Splitting| #[trigger]
                splits_as(*tokenize, terms) && shown(old(self).texts@, old(self)@, terms, node),
        ensures
            final(self).wf(),
            *final(self) == (Graph { texts: final(self).texts, ..*old(self) }),
            final(self).texts@ == without_node_docs(old(self).texts@, node),
    {
        let ghost before = *self;
        let ghost defs = before.texts@;
        let ghost c = self@;
        let ghost ts = choose|terms: Splitting| #[trigger]
            splits_as(*tokenize, terms) && shown(defs, c, terms, node);
        let mut i: usize = 0;
        while i < self.texts.list.len()
            invariant
                before.wf(),
                self.wf(),
                *self == (Graph { texts: self.texts, ..before }),
                splits(*tokenize),
                splits_as(*tokenize, ts),
                shown(defs, c, ts, node),
                defs == before.texts@,
                c == before@,
                i <= self.texts.list@.len(),
                self.texts@.len() == defs.len(),
                forall|j: int| i <= j < defs.len() ==> #[trigger] self.texts@[j] == defs[j],
                forall|j: int|
                    0 <= j < i ==> #[trigger] self.texts@[j] == (TextDef {
                        docs: defs[j].docs.remove(node),
                        ..defs[j]
                    }),
            decreases self.texts.list@.len() - i,
        {
            let ghost now = self.texts@;
            assert(now[i as int] == self.texts.list@[i as int].def());
            assert(now[i as int] == defs[i as int]);
            assert(shows(defs[i as int], c, ts, node));
            let (l, p, language): (LabelId, PropKeyId, u8) = (
                self.texts.list[i].label,
                self.texts.list[i].prop,
                self.texts.list[i].language,
            );
            match self.text_at(node, l, p) {
                Some(t) => {
                    let text: &str = t.as_str();
                    let terms: Vec<(String, u32)> = tokenize(text, language);
                    assert(tokenize.ensures((text, language), terms));
                    assert(terms_of(terms@) == ts(t@, language));
                    self.texts.remove_at(i, node, &terms);
                },
                None => {
                    assert(defs[i as int].docs.remove(node) =~= defs[i as int].docs);
                },
            }
            assert(self.texts@.len() == self.texts.list@.len());
            i = i + 1;
        }
        assert(self.texts@ =~= without_node_docs(defs, node));
    }

    /// Adds a node with these labels, and its documents to the text indexes.
    #[verifier::rlimit(60)]
    #[verifier::spinoff_prover]
    pub fn add_indexed_node<F: Fn(&str, u8) -> Vec<(String, u32)>>(
        &mut self,
        labels: &[&str],
        props: &Props,
        tokenize: &F,
    ) -> (r: Result<NodeId, Error>)
        requires
            old(self).wf(),
            props.wf(),
            old(self).write_gen < u64::MAX,
            old(self)@.next_node < u64::MAX,
            old(self)@.labels.len() + labels@.len() <= u32::MAX,
            old(self)@.keys.len() + props.entries@.len() <= u32::MAX,
            splits(*tokenize),
            exists|terms: Splitting| #[trigger]
                splits_as(*tokenize, terms) && in_step(old(self).texts@, old(self)@, terms),
        ensures
            final(self).wf(),
            old(self).keeps_settings(*final(self)),
            old(self).keeps_snapshot(*final(self)),
            same_texts(old(self).texts@, final(self).texts@),
            r is Err <==> old(self)@.refuses_node(
                names_of(labels@),
                old(self)@.next_node,
                props@,
            ),
            r matches Err(e) ==> *final(self) == *old(self) && old(self)@.explains_node(
                e,
                names_of(labels@),
                old(self)@.next_node,
                props@,
            ),
            r matches Ok(id) ==> id == old(self)@.next_node && old(self)@.with_node(
                names_of(labels@),
                props@,
                final(self)@,
            ) && final(self).write_gen == old(self).write_gen + 1 && final(self).stale(),
            forall|terms: Splitting| #[trigger]
                splits_as(*tokenize, terms) && in_step(old(self).texts@, old(self)@, terms)
                    ==> in_step(final(self).texts@, final(self)@, terms),
    {
        let ghost before = *self;
        let ghost c = self@;
        let ghost node = self@.next_node;
        let id: NodeId = match self.add_node_multi(labels, props) {
            Ok(id) => id,
            Err(e) => {
                return Err(e);
            },
        };
        proof {
            lemma_store_sound(before.store);
            let ts = choose|terms: Splitting| #[trigger]
                splits_as(*tokenize, terms) && in_step(before.texts@, c, terms);
            lemma_not_there(before.texts@, c, ts, node);
            assert forall|x: NodeId| x != node implies #[trigger] same_node(c, self@, x) by {}
            lemma_one_changed(c, self@, node);
        }
        self.index_node_fts(id, tokenize);
        proof {
            lemma_same_without(self.texts@, id);
            assert forall|terms: Splitting| #[trigger]
                splits_as(*tokenize, terms) && in_step(before.texts@, c, terms) implies in_step(
                self.texts@,
                self@,
                terms,
            ) by {
                lemma_one_node(before.texts@, c, self@, self.texts@, terms, node);
            }
        }
        Ok(id)
    }

    /// Replaces the properties of a node, and its documents in the text indexes.
    #[verifier::rlimit(60)]
    #[verifier::spinoff_prover]
    pub fn update_indexed_node<F: Fn(&str, u8) -> Vec<(String, u32)>>(
        &mut self,
        id: NodeId,
        props: &Props,
        tokenize: &F,
    ) -> (r: Result<(), Error>)
        requires
            old(self).wf(),
            props.wf(),
            old(self).write_gen < u64::MAX,
            old(self)@.keys.len() + props.entries@.len() <= u32::MAX,
            splits(*tokenize),
            exists|terms: Splitting| #[trigger]
                splits_as(*tokenize, terms) && in_step(old(self).texts@, old(self)@, terms),
        ensures
            final(self).wf(),
            old(self).keeps_settings(*final(self)),
            old(self).keeps_snapshot(*final(self)),
            same_texts(old(self).texts@, final(self).texts@),
            r is Err ==> final(self)@ == old(self)@ && final(self).write_gen == old(
                self,
            ).write_gen && final(self).texts@ == old(self).texts@,
            r == Err::<(), Error>(Error::NodeNotFound(id)) <==> !old(self)@.nodes.dom().contains(
                id,
            ),
            old(self)@.nodes.dom().contains(id) ==> (r is Err <==> old(self)@.refuses_update(
                id,
                props@,
            )),
            r matches Err(e) ==> !old(self)@.nodes.dom().contains(id)
                || old(self)@.explains_update(e, id, props@),
            r is Ok ==> old(self)@.with_node_props(id, props@, final(self)@)
                && final(self).write_gen == old(self).write_gen + 1 && final(self).stale(),
            forall|terms: Splitting| #[trigger]
                splits_as(*tokenize, terms) && in_step(old(self).texts@, old(self)@, terms)
                    ==> in_step(final(self).texts@, final(self)@, terms),
    {
        let ghost before = *self;
        self.delete_node_fts(id, tokenize);
        let r: Result<(), Error> = self.update_node(id, props);
        proof {
            lemma_docs_out(before.texts@, id);
            assert forall|x: NodeId| x != id implies #[trigger] same_node(before@, self@, x) by {}
            lemma_one_changed(before@, self@, id);
        }
        self.index_node_fts(id, tokenize);
        proof {
            lemma_same_without(before.texts@, id);
            lemma_same_without(self.texts@, id);
            assert forall|terms: Splitting| #[trigger]
                splits_as(*tokenize, terms) && in_step(
                    before.texts@,
                    before@,
                    terms,
                ) implies in_step(self.texts@, self@, terms) by {
                lemma_one_node(before.texts@, before@, self@, self.texts@, terms, id);
            }
            if r is Err {
                let ts = choose|terms: Splitting| #[trigger]
                    splits_as(*tokenize, terms) && in_step(before.texts@, before@, terms);
                lemma_in_step_unique(before.texts@, self.texts@, before@, ts);
            }
        }
        r
    }

    /// Adds a label to a node, and its documents under it to the text indexes.
    #[verifier::rlimit(60)]
    #[verifier::spinoff_prover]
    pub fn add_indexed_label<F: Fn(&str, u8) -> Vec<(String, u32)>>(
        &mut self,
        id: NodeId,
        label: &str,
        tokenize: &F,
    ) -> (r: Result<(), Error>)
        requires
            old(self).wf(),
            old(self).write_gen < u64::MAX,
            old(self)@.labels.len() < u32::MAX,
            old(self).store.nodes@.dom().contains(id) ==> old(self)@.keys.len()
                + old(self).store.nodes@[id].props.entries@.len() <= u32::MAX,
            splits(*tokenize),
            exists|terms: Splitting| #[trigger]
                splits_as(*tokenize, terms) && in_step(old(self).texts@, old(self)@, terms),
        ensures
            final(self).wf(),
            old(self).keeps_settings(*final(self)),
            old(self).keeps_snapshot(*final(self)),
            same_texts(old(self).texts@, final(self).texts@),
            r is Err ==> final(self)@ == old(self)@ && final(self).write_gen == old(
                self,
            ).write_gen && final(self).texts@ == old(self).texts@,
            r == Err::<(), Error>(Error::NodeNotFound(id)) <==> !old(self)@.nodes.dom().contains(
                id,
            ),
            old(self)@.nodes.dom().contains(id) ==> (r is Err <==> !old(self)@.carries(id, label@)
                && old(self)@.refuses_label(label@, id, old(self)@.nodes[id].props)),
            r matches Err(e) ==> !old(self)@.nodes.dom().contains(id)
                || old(self)@.explains_label(e, label@, id, old(self)@.nodes[id].props),
            r is Ok && old(self)@.carries(id, label@) ==> final(self)@ == old(self)@,
            r is Ok && !old(self)@.carries(id, label@) ==> old(self)@.with_label(
                id,
                label@,
                final(self)@,
            ),
            r is Ok ==> final(self).write_gen == old(self).write_gen + 1 && final(self).stale(),
            forall|terms: Splitting| #[trigger]
                splits_as(*tokenize, terms) && in_step(old(self).texts@, old(self)@, terms)
                    ==> in_step(final(self).texts@, final(self)@, terms),
    {
        let ghost before = *self;
        self.delete_node_fts(id, tokenize);
        let r: Result<(), Error> = self.add_label(id, label);
        proof {
            lemma_docs_out(before.texts@, id);
            assert forall|x: NodeId| x != id implies #[trigger] same_node(before@, self@, x) by {}
            lemma_one_changed(before@, self@, id);
        }
        self.index_node_fts(id, tokenize);
        proof {
            lemma_same_without(before.texts@, id);
            lemma_same_without(self.texts@, id);
            assert forall|terms: Splitting| #[trigger]
                splits_as(*tokenize, terms) && in_step(
                    before.texts@,
                    before@,
                    terms,
                ) implies in_step(self.texts@, self@, terms) by {
                lemma_one_node(before.texts@, before@, self@, self.texts@, terms, id);
            }
            if r is Err {
                let ts = choose|terms: Splitting| #[trigger]
                    splits_as(*tokenize, terms) && in_step(before.texts@, before@, terms);
                lemma_in_step_unique(before.texts@, self.texts@, before@, ts);
            }
        }
        r
    }

    /// Takes a label off a node, and its documents under it out of the text indexes.
    #[verifier::rlimit(60)]
    #[verifier::spinoff_prover]
    pub fn remove_indexed_label<F: Fn(&str, u8) -> Vec<(String, u32)>>(
        &mut self,
        id: NodeId,
        label: &str,
        tokenize: &F,
    )
        requires
            old(self).wf(),
            old(self).write_gen < u64::MAX,
            splits(*tokenize),
            exists|terms: Splitting| #[trigger]
                splits_as(*tokenize, terms) && in_step(old(self).texts@, old(self)@, terms),
        ensures
            final(self).wf(),
            old(self).keeps_settings(*final(self)),
            old(self).keeps_snapshot(*final(self)),
            same_texts(old(self).texts@, final(self).texts@),
            final(self)@ == (if old(self)@.carries(id, label@) {
                old(self)@.without_label(id, number_of_name(old(self)@.labels, label@)->0)
            } else {
                old(self)@
            }),
            final(self).write_gen == old(self).write_gen + 1,
            final(self).stale(),
            forall|terms: Splitting| #[trigger]
                splits_as(*tokenize, terms) && in_step(old(self).texts@, old(self)@, terms)
                    ==> in_step(final(self).texts@, final(self)@, terms),
    {
        let ghost before = *self;
        self.delete_node_fts(id, tokenize);
        self.remove_label(id, label);
        proof {
            lemma_docs_out(before.texts@, id);
            assert forall|x: NodeId| x != id implies #[trigger] same_node(before@, self@, x) by {}
            lemma_one_changed(before@, self@, id);
        }
        self.index_node_fts(id, tokenize);
        proof {
            lemma_same_without(before.texts@, id);
            lemma_same_without(self.texts@, id);
            assert forall|terms: Splitting| #[trigger]
                splits_as(*tokenize, terms) && in_step(
                    before.texts@,
                    before@,
                    terms,
                ) implies in_step(self.texts@, self@, terms) by {
                lemma_one_node(before.texts@, before@, self@, self.texts@, terms, id);
            }
        }
    }

    /// Deletes a node with the edges at it and its documents in the text indexes.
    #[verifier::rlimit(60)]
    #[verifier::spinoff_prover]
    pub fn delete_indexed_node<F: Fn(&str, u8) -> Vec<(String, u32)>>(
        &mut self,
        id: NodeId,
        tokenize: &F,
    )
        requires
            old(self).wf(),
            old(self).write_gen < u64::MAX,
            splits(*tokenize),
            exists|terms: Splitting| #[trigger]
                splits_as(*tokenize, terms) && in_step(old(self).texts@, old(self)@, terms),
        ensures
            final(self).wf(),
            old(self).keeps_settings(*final(self)),
            old(self).keeps_snapshot(*final(self)),
            same_texts(old(self).texts@, final(self).texts@),
            final(self)@ == (if old(self)@.nodes.dom().contains(id) {
                old(self)@.without_node(id)
            } else {
                old(self)@
            }),
            final(self).write_gen == old(self).write_gen + 1,
            final(self).stale(),
            forall|terms: Splitting| #[trigger]
                splits_as(*tokenize, terms) && in_step(old(self).texts@, old(self)@, terms)
                    ==> in_step(final(self).texts@, final(self)@, terms),
    {
        let ghost before = *self;
        self.delete_node_fts(id, tokenize);
        self.delete_node(id);
        proof {
            lemma_docs_out(before.texts@, id);
            lemma_same_without(before.texts@, id);
            assert forall|x: NodeId| x != id implies #[trigger] same_node(before@, self@, x) by {}
            lemma_one_changed(before@, self@, id);
            assert forall|terms: Splitting| #[trigger]
                splits_as(*tokenize, terms) && in_step(
                    before.texts@,
                    before@,
                    terms,
                ) implies in_step(self.texts@, self@, terms) by {
                assert(without_node_docs(self.texts@, id) =~= self.texts@) by {
                    assert forall|i: int| 0 <= i < self.texts@.len() implies without_node_docs(
                        self.texts@,
                        id,
                    )[i] == self.texts@[i] by {
                        assert(self.texts@[i].docs.remove(id) =~= self.texts@[i].docs);
                    }
                }
                assert(shown(self.texts@, self@, terms, id));
                lemma_one_node(before.texts@, before@, self@, self.texts@, terms, id);
            }
        }
    }

    /// Commits the writes that were staged in a transaction on this graph, and brings
    /// the text indexes in step.
    #[verifier::rlimit(60)]
    #[verifier::spinoff_prover]
    pub fn commit_indexed<F: Fn(&str, u8) -> Vec<(String, u32)>>(
        &mut self,
        txn: WriteTxn,
        tokenize: &F,
    )
        requires
            old(self).wf(),
            txn.wf(),
            txn.base@ == old(self)@,
            old(self).write_gen + txn.mutations <= u64::MAX,
            splits(*tokenize),
            exists|terms: Splitting| #[trigger]
                splits_as(*tokenize, terms) && in_step(old(self).texts@, old(self)@, terms),
        ensures
            final(self).wf(),
            old(self).keeps_settings(*final(self)),
            old(self).keeps_snapshot(*final(self)),
            same_texts(old(self).texts@, final(self).texts@),
            final(self)@ == txn@,
            final(self).write_gen == old(self).write_gen + txn.mutations,
            txn.mutations > 0 ==> final(self).stale(),
            txn.mutations == 0 ==> final(self).stale() == old(self).stale(),
            forall|terms: Splitting| #[trigger]
                splits_as(*tokenize, terms) && in_step(old(self).texts@, old(self)@, terms)
                    ==> in_step(final(self).texts@, final(self)@, terms),
    {
        let ghost before = *self;
        let ghost c = self@;
        let ghost ts = choose|terms: Splitting| #[trigger]
            splits_as(*tokenize, terms) && in_step(before.texts@, c, terms);
        let mut nodes: Vec<NodeId> = Vec::new();
        proof {
            assert forall|terms: Splitting| #[trigger]
                splits_as(*tokenize, terms) && in_step(before.texts@, c, terms) implies in_step_but(
                self.texts@,
                c,
                terms,
                nodes@,
            ) by {
                lemma_but_none(before.texts@, c, terms);
                assert(nodes@ =~= Seq::<NodeId>::empty());
            }
        }
        let mut k: usize = 0;
        while k < txn.touched.len()
            invariant
                before.wf(),
                txn.wf(),
                self.wf(),
                *self == (Graph { texts: self.texts, ..before }),
                same_texts(before.texts@, self.texts@),
                c == before@,
                splits(*tokenize),
                splits_as(*tokenize, ts),
                in_step(before.texts@, c, ts),
                k <= txn.touched@.len(),
                nodes@ == txn.touched@.take(k as int),
                forall|terms: Splitting| #[trigger]
                    splits_as(*tokenize, terms) && in_step(before.texts@, c, terms) ==> in_step_but(
                        self.texts@,
                        c,
                        terms,
                        nodes@,
                    ),
            decreases txn.touched@.len() - k,
        {
            let id: NodeId = txn.touched[k];
            let ghost had = self.texts@;
            let ghost first = nodes@;
            proof {
                assert(in_step_but(had, c, ts, first));
                assert(!first.contains(id)) by {
                    if first.contains(id) {
                        let j = first.index_of(id);
                        assert(txn.touched@[j] == txn.touched@[k as int]);
                    }
                }
                assert(shown(had, c, ts, id)) by {
                    assert forall|i: int| 0 <= i < had.len() implies shows(
                        #[trigger] had[i],
                        c,
                        ts,
                        id,
                    ) by {}
                }
            }
            self.delete_node_fts(id, tokenize);
            nodes.push(id);
            proof {
                lemma_same_without(had, id);
                assert(nodes@ =~= txn.touched@.take(k + 1));
                assert forall|terms: Splitting| #[trigger]
                    splits_as(*tokenize, terms) && in_step(
                        before.texts@,
                        c,
                        terms,
                    ) implies in_step_but(self.texts@, c, terms, nodes@) by {
                    lemma_taken_out(had, c, terms, first, id);
                }
            }
            k = k + 1;
        }
        let ghost cleared = self.texts@;
        let ghost now = txn@;
        proof {
            assert(nodes@ =~= txn.touched@);
            assert forall|id: NodeId| !nodes@.contains(id) implies #[trigger] same_node(
                c,
                now,
                id,
            ) by {
                assert(txn.untouched(id));
            }
            assert forall|terms: Splitting| #[trigger]
                splits_as(*tokenize, terms) && in_step(before.texts@, c, terms) implies in_step_but(
                cleared,
                now,
                terms,
                nodes@,
            ) by {
                lemma_others_shown(cleared, c, now, terms, nodes@);
            }
        }
        self.commit(txn);
        let ghost done = *self;
        while nodes.len() > 0
            invariant
                done.wf(),
                self.wf(),
                *self == (Graph { texts: self.texts, ..done }),
                same_texts(before.texts@, self.texts@),
                done@ == now,
                splits(*tokenize),
                splits_as(*tokenize, ts),
                in_step(before.texts@, c, ts),
                nodes@.no_duplicates(),
                forall|terms: Splitting| #[trigger]
                    splits_as(*tokenize, terms) && in_step(before.texts@, c, terms) ==> in_step_but(
                        self.texts@,
                        now,
                        terms,
                        nodes@,
                    ),
            decreases nodes@.len(),
        {
            let ghost had = self.texts@;
            let ghost all = nodes@;
            proof {
                assert(in_step_but(had, now, ts, all));
            }
            match nodes.pop() {
                Some(id) => {
                    proof {
                        assert(all.contains(id));
                        assert(all =~= nodes@.push(id));
                        assert(!nodes@.contains(id)) by {
                            if nodes@.contains(id) {
                                let j = nodes@.index_of(id);
                                assert(all[j] == all[all.len() - 1]);
                            }
                        }
                        assert forall|i: int| 0 <= i < had.len() implies !(
                        #[trigger] had[i]).docs.dom().contains(id) by {}
                    }
                    self.index_node_fts(id, tokenize);
                    proof {
                        lemma_same_without(self.texts@, id);
                        assert forall|terms: Splitting| #[trigger]
                            splits_as(*tokenize, terms) && in_step(
                                before.texts@,
                                c,
                                terms,
                            ) implies in_step_but(self.texts@, now, terms, nodes@) by {
                            lemma_put_in(self.texts@, now, terms, nodes@, id);
                        }
                    }
                },
                None => {},
            }
        }
        proof {
            assert(nodes@ =~= Seq::<NodeId>::empty());
            assert forall|terms: Splitting| #[trigger]
                splits_as(*tokenize, terms) && in_step(before.texts@, c, terms) implies in_step(
                self.texts@,
                self@,
                terms,
            ) by {
                lemma_but_none(self.texts@, now, terms);
            }
        }
    }

    /// Runs a transaction: what it staged is committed where it succeeds, with the text
    /// indexes in step, and nothing of it where it does not.
    pub fn update_indexed<T, G, F>(&mut self, f: G, tokenize: &F) -> (r: Result<T, Error>) where
        G: FnOnce(&mut WriteTxn) -> Result<T, Error>,
        F: Fn(&str, u8) -> Vec<(String, u32)>,

        requires
            old(self).wf(),
            forall|txn: &mut WriteTxn|
                #![trigger f.requires((txn,))]
                txn.opened(old(self)@) ==> f.requires((txn,)),
            forall|txn: &mut WriteTxn, out: Result<T, Error>|
                #![trigger f.ensures((txn,), out)]
                f.ensures((txn,), out) && txn.opened(old(self)@) ==> final(txn).wf()
                    && final(txn).base@ == old(self)@ && old(self).write_gen
                    + final(txn).mutations <= u64::MAX,
            splits(*tokenize),
            exists|terms: Splitting| #[trigger]
                splits_as(*tokenize, terms) && in_step(old(self).texts@, old(self)@, terms),
        ensures
            final(self).wf(),
            old(self).keeps_settings(*final(self)),
            old(self).keeps_snapshot(*final(self)),
            same_texts(old(self).texts@, final(self).texts@),
            r is Err ==> *final(self) == *old(self),
            exists|txn: &mut WriteTxn|
                {
                    &&& #[trigger] f.ensures((txn,), r)
                    &&& txn.opened(old(self)@)
                    &&& r is Ok ==> final(self)@ == final(txn)@
                    &&& r is Ok ==> final(self).write_gen == old(self).write_gen
                        + final(txn).mutations
                },
            forall|terms: Splitting| #[trigger]
                splits_as(*tokenize, terms) && in_step(old(self).texts@, old(self)@, terms)
                    ==> in_step(final(self).texts@, final(self)@, terms),
    {
        let mut txn: WriteTxn = self.begin();
        let r: Result<T, Error> = f(&mut txn);
        match r {
            Ok(_) => {
                self.commit_indexed(txn, tokenize);
                r
            },
            Err(_) => r,
        }
    }

    /// Makes the text index on a property of a label, where there is none yet.
    #[verifier::rlimit(60)]
    #[verifier::spinoff_prover]
    pub fn build_node_text_index<F: Fn(&str, u8) -> Vec<(String, u32)>>(
        &mut self,
        label: &str,
        property: &str,
        language: u8,
        tokenize: &F,
    )
        requires
            old(self).wf(),
            old(self)@.labels.len() < u32::MAX,
            old(self)@.keys.len() < u32::MAX,
            splits(*tokenize),
            exists|terms: Splitting| #[trigger]
                splits_as(*tokenize, terms) && in_step(old(self).texts@, old(self)@, terms),
        ensures
            final(self).wf(),
            old(self).keeps_settings(*final(self)),
            old(self).keeps_snapshot(*final(self)),
            final(self)@ == old(self)@.with_names(label@, property@),
            final(self).write_gen == old(self).write_gen,
            final(self).text_scope(label@, property@) matches Some((l, p)) && final(self).texts@
                == if has_text(old(self).texts@, l, p) {
                old(self).texts@
            } else {
                old(self).texts@.insert(
                    text_place(old(self).texts@, l, p, 0),
                    (TextDef {
                        label: l,
                        prop: p,
                        language,
                        docs: final(self).text_docs(label@, property@),
                    }),
                )
            },
            forall|terms: Splitting| #[trigger]
                splits_as(*tokenize, terms) && in_step(old(self).texts@, old(self)@, terms)
                    ==> in_step(final(self).texts@, final(self)@, terms),
    {
        let ghost before = *self;
        let texts: Vec<(NodeId, String)> = self.texts_to_index(label, property);
        let mut documents: Vec<(NodeId, Vec<(String, u32)>)> = Vec::new();
        let mut i: usize = 0;
        while i < texts.len()
            invariant
                splits(*tokenize),
                i <= texts@.len(),
                documents@.len() == i,
                forall|j: int|
                    0 <= j < i ==> (#[trigger] documents@[j]).0 == texts@[j].0 && doc_len(
                        terms_of(documents@[j].1@),
                    ) <= u32::MAX,
                forall|ts: Splitting, j: int|
                    #![trigger splits_as(*tokenize, ts), documents@[j]]
                    splits_as(*tokenize, ts) && 0 <= j < i ==> terms_of(documents@[j].1@) == ts(
                        texts@[j].1@,
                        language,
                    ),
            decreases texts@.len() - i,
        {
            let text: &str = texts[i].1.as_str();
            let terms: Vec<(String, u32)> = tokenize(text, language);
            assert(tokenize.ensures((text, language), terms));
            documents.push((texts[i].0, terms));
            i = i + 1;
        }
        self.create_node_text_index_with_language(label, property, language, &documents);
        proof {
            lemma_store_sound(before.store);
            lemma_store_sound(self.store);
            let (l, p) = self.text_scope(label@, property@)->0;
            if !has_text(before.texts@, l, p) {
                let at = text_place(before.texts@, l, p, 0);
                lemma_text_place(before.texts@, l, p, 0);
                assert(text_at(self.texts@, l, p, at));
                let k = text_position(self.texts@, l, p);
                assert(text_at(self.texts@, l, p, k));
                if k < at {
                    assert(self.texts@[k].label != self.texts@[at].label || self.texts@[k].prop
                        != self.texts@[at].prop);
                } else if at < k {
                    assert(self.texts@[at].label != self.texts@[k].label || self.texts@[at].prop
                        != self.texts@[k].prop);
                }
            }
            assert forall|ts: Splitting| #[trigger]
                splits_as(*tokenize, ts) && in_step(before.texts@, before@, ts) implies in_step(
                self.texts@,
                self@,
                ts,
            ) by {
                lemma_built(
                    before,
                    *self,
                    label@,
                    property@,
                    language,
                    texts@,
                    documents@,
                    ts,
                );
            }
        }
    }
}

proof fn lemma_document_of(list: Seq<(NodeId, Vec<(String, u32)>)>, node: NodeId)
    requires
        forall|i: int, j: int|
            0 <= i < j < list.len() ==> (#[trigger] list[i]).0 != (#[trigger] list[j]).0,
    ensures
        documents_of(list).dom().contains(node) <==> exists|i: int|
            0 <= i < list.len() && (#[trigger] list[i]).0 == node && doc_len(terms_of(list[i].1@))
                > 0,
        forall|i: int|
            0 <= i < list.len() && (#[trigger] list[i]).0 == node && doc_len(terms_of(list[i].1@))
                > 0 ==> documents_of(list)[node] == terms_of(list[i].1@),
    decreases list.len(),
{
    if list.len() > 0 {
        let rest = list.drop_last();
        let k = list.len() - 1;
        assert forall|i: int, j: int| 0 <= i < j < rest.len() implies (#[trigger] rest[i]).0 != (
        #[trigger] rest[j]).0 by {
            assert(list[i].0 != list[j].0);
        }
        lemma_document_of(rest, node);
        assert(list.last() == list[k]);
        if documents_of(list).dom().contains(node) {
            if !(list[k].0 == node && doc_len(terms_of(list[k].1@)) > 0) {
                let i = choose|i: int|
                    0 <= i < rest.len() && (#[trigger] rest[i]).0 == node && doc_len(
                        terms_of(rest[i].1@),
                    ) > 0;
                assert(list[i] == rest[i]);
            }
        }
        assert forall|i: int|
            0 <= i < list.len() && (#[trigger] list[i]).0 == node && doc_len(terms_of(list[i].1@))
                > 0 implies documents_of(list).dom().contains(node) && documents_of(list)[node]
            == terms_of(list[i].1@) by {
            if i < k {
                assert(rest[i] == list[i]);
                assert(list[i].0 != list[k].0);
            }
        }
    }
}

/// A text index over the texts that are there is in step.
proof fn lemma_built(
    before: Graph,
    now: Graph,
    label: Seq<char>,
    property: Seq<char>,
    language: u8,
    texts: Seq<(NodeId, String)>,
    documents: Seq<(NodeId, Vec<(String, u32)>)>,
    ts: Splitting,
)
    requires
        before.wf(),
        now.wf(),
        before@.sound(),
        now@.sound(),
        now@ == before@.with_names(label, property),
        in_step(before.texts@, before@, ts),
        now.text_scope(label, property) matches Some((l, p)) && now.texts@ == if has_text(
            before.texts@,
            l,
            p,
        ) {
            before.texts@
        } else {
            before.texts@.insert(
                text_place(before.texts@, l, p, 0),
                TextDef { label: l, prop: p, language, docs: documents_of(documents) },
            )
        },
        documents.len() == texts.len(),
        forall|i: int, j: int| 0 <= i < j < texts.len() ==> texts[i].0 < texts[j].0,
        forall|j: int|
            0 <= j < texts.len() ==> (#[trigger] documents[j]).0 == texts[j].0 && terms_of(
                documents[j].1@,
            ) == ts(texts[j].1@, language),
        forall|i: int|
            0 <= i < texts.len() ==> crate::graph_text::has_text_value(
                before@,
                (#[trigger] texts[i]).0,
                label,
                property,
                texts[i].1@,
            ),
        forall|id: NodeId, text: Seq<char>| #[trigger]
            crate::graph_text::has_text_value(before@, id, label, property, text) ==> exists|i: int|
                0 <= i < texts.len() && (#[trigger] texts[i]).0 == id && texts[i].1@ == text,
    ensures
        in_step(now.texts@, now@, ts),
{
    let (l, p) = now.text_scope(label, property)->0;
    let (c, d) = (before@, now@);
    assert(c.keys.is_prefix_of(d.keys));
    assert(d.labels[l as int] == label && l < d.labels.len()) by {
        assert(d.labels.contains(label));
    }
    assert(d.keys[p as int] == property && p < d.keys.len()) by {
        assert(d.keys.contains(property));
    }
    assert forall|i: int, id: NodeId| 0 <= i < before.texts@.len() implies #[trigger] shows(
        before.texts@[i],
        d,
        ts,
        id,
    ) by {
        let t = before.texts@[i];
        assert(shows(t, c, ts, id));
        assert(t.prop < c.keys.len());
        assert(text_under(d, t.label, t.prop, id) == text_under(c, t.label, t.prop, id));
    }
    if !has_text(before.texts@, l, p) {
        let at = text_place(before.texts@, l, p, 0);
        let fresh = TextDef { label: l, prop: p, language, docs: documents_of(documents) };
        lemma_text_place(before.texts@, l, p, 0);
        assert forall|id: NodeId| #[trigger] shows(fresh, d, ts, id) by {
            lemma_document_of(documents, id);
            match text_under(d, l, p, id) {
                Some(t) => {
                    assert(c.carries(id, label)) by {
                        assert(l < c.labels.len());
                        assert(c.labels[l as int] == label);
                        assert(c.labels.contains(label));
                        assert(number_of_name(c.labels, label) == Some(l));
                    }
                    assert(crate::graph_text::has_text_value(c, id, label, property, t));
                    let i = choose|i: int|
                        0 <= i < texts.len() && (#[trigger] texts[i]).0 == id && texts[i].1@ == t;
                    assert(documents[i].0 == id);
                    if fresh.docs.dom().contains(id) {
                        let j = choose|j: int|
                            0 <= j < documents.len() && (#[trigger] documents[j]).0 == id
                                && doc_len(terms_of(documents[j].1@)) > 0;
                        if i < j {
                            assert(texts[i].0 < texts[j].0);
                        } else if j < i {
                            assert(texts[j].0 < texts[i].0);
                        }
                    }
                },
                None => {
                    if fresh.docs.dom().contains(id) {
                        let j = choose|j: int|
                            0 <= j < documents.len() && (#[trigger] documents[j]).0 == id
                                && doc_len(terms_of(documents[j].1@)) > 0;
                        assert(crate::graph_text::has_text_value(
                            c,
                            texts[j].0,
                            label,
                            property,
                            texts[j].1@,
                        ));
                        assert(c.carries(id, label));
                        let m = number_of_name(c.labels, label)->0;
                        assert(c.labels[m as int] == label);
                        assert(d.labels[m as int] == label);
                        assert(m == l);
                    }
                },
            }
        }
        assert forall|i: int, id: NodeId| 0 <= i < now.texts@.len() implies #[trigger] shows(
            now.texts@[i],
            d,
            ts,
            id,
        ) by {
            if i < at {
                assert(now.texts@[i] == before.texts@[i]);
            } else if i == at {
                assert(now.texts@[i] == fresh);
            } else {
                assert(now.texts@[i] == before.texts@[i - 1]);
            }
        }
        assert forall|i: int| 0 <= i < now.texts@.len() implies (#[trigger] now.texts@[i]).prop
            < d.keys.len() by {
            if i < at {
                assert(now.texts@[i] == before.texts@[i]);
            } else if i > at {
                assert(now.texts@[i] == before.texts@[i - 1]);
            }
        }
    }
}

} // verus!
