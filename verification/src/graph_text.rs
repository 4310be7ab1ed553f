//! Full-text search over a graph: its text indexes, and the texts that go into them.
//!
//! Splitting a text into terms is left to the caller, which gets the texts from here
//! and hands the terms back.

use vstd::prelude::*;

use crate::csr::ascending;
use crate::graph::Graph;
use crate::laws::lemma_store_sound;
use crate::schema::{LabelId, NodeId, PropKeyId};
use crate::store::{Content, NodeRecord};
use crate::tables::number_of_name;
use crate::text::{
    counted, doc_len, documents_of, has_text, indexed_texts, lengths, pairs_of, terms_of,
    text_place, text_position, texts_in, with_document, without_document, TextDef, Terms,
};
use crate::value::{PropValue, Val};

verus! {

/// Whether a node that carries a label has this text in a property.
pub open spec fn has_text_value(
    c: Content,
    id: NodeId,
    label: Seq<char>,
    property: Seq<char>,
    text: Seq<char>,
) -> bool {
    &&& c.carries(id, label)
    &&& c.nodes[id].props.dom().contains(property)
    &&& c.nodes[id].props[property] == Val::Str(text)
}

/// The texts of a node that text indexes take under its labels.
pub open spec fn texts_under(
    pairs: Seq<(LabelId, PropKeyId)>,
    keys: Seq<Seq<char>>,
    labels: Seq<LabelId>,
    props: Map<Seq<char>, Val>,
) -> Seq<(LabelId, PropKeyId, Seq<char>)>
    decreases labels.len(),
{
    if labels.len() == 0 {
        Seq::empty()
    } else {
        let l = labels.last();
        texts_under(pairs, keys, labels.drop_last(), props) + texts_in(
            pairs,
            keys,
            l,
            props,
        ).map_values(|t: (PropKeyId, Seq<char>)| (l, t.0, t.1))
    }
}

/// A text with what it is under.
pub open spec fn text_entry() -> spec_fn((LabelId, PropKeyId, String)) -> (
    LabelId,
    PropKeyId,
    Seq<char>,
) {
    |t: (LabelId, PropKeyId, String)| (t.0, t.1, t.2@)
}

/// The names of what a text index is on, and its language.
pub open spec fn active_from(
    defs: Seq<TextDef>,
    labels: Seq<Seq<char>>,
    keys: Seq<Seq<char>>,
) -> Seq<(Seq<char>, Seq<char>, u8)>
    decreases defs.len(),
{
    if defs.len() == 0 {
        Seq::empty()
    } else {
        let before = active_from(defs.drop_last(), labels, keys);
        let d = defs.last();
        if d.label < labels.len() && d.prop < keys.len() {
            before.push((labels[d.label as int], keys[d.prop as int], d.language))
        } else {
            before
        }
    }
}

/// The view of a name pair with a language.
pub open spec fn active_entry() -> spec_fn((String, String, u8)) -> (Seq<char>, Seq<char>, u8) {
    |t: (String, String, u8)| (t.0@, t.1@, t.2)
}

impl Graph {
    /// The numbers of a label and a property.
    pub open spec fn text_scope(&self, label: Seq<char>, property: Seq<char>) -> Option<
        (LabelId, PropKeyId),
    > {
        match (
            number_of_name(self@.labels, label),
            number_of_name(self@.keys, property),
        ) {
            (Some(l), Some(p)) => Some((l, p)),
            _ => None,
        }
    }

    /// Whether a text index is defined on a property of a label.
    pub open spec fn text_indexed(&self, label: Seq<char>, property: Seq<char>) -> bool {
        self.text_scope(label, property) matches Some((l, p)) && has_text(self.texts@, l, p)
    }

    /// The documents in the text index on a property of a label.
    pub open spec fn text_docs(&self, label: Seq<char>, property: Seq<char>) -> Map<NodeId, Terms> {
        let (l, p) = self.text_scope(label, property)->0;
        self.texts@[text_position(self.texts@, l, p)].docs
    }

    fn text_index_at(&self, label: &str, property: &str) -> (r: Option<usize>)
        requires
            self.wf(),
        ensures
            r is Some <==> self.text_indexed(label@, property@),
            r matches Some(i) ==> i < self.texts.list@.len() && self.texts.list@[i as int].wf()
                && self.texts.list@[i as int]@ == self.text_docs(label@, property@),
    {
        match (self.store.labels.scopes.number(label), self.store.prop_keys.number(property)) {
            (Some(l), Some(p)) => {
                let r: Option<usize> = self.texts.position(l, p);
                proof {
                    if let Some(i) = r {
                        assert(self.texts@[i as int] == self.texts.list@[i as int].def());
                    }
                }
                r
            },
            _ => None,
        }
    }

    /// Whether a text index is defined on a property of a label.
    pub fn has_node_text_index(&self, label: &str, property: &str) -> (r: bool)
        requires
            self.wf(),
        ensures
            r == self.text_indexed(label@, property@),
    {
        self.text_index_at(label, property).is_some()
    }

    /// The texts that a text index on a property of a label is made from, with
    /// their nodes, in ascending order of the nodes.
    pub fn texts_to_index(&self, label: &str, property: &str) -> (out: Vec<(NodeId, String)>)
        requires
            self.wf(),
        ensures
            forall|i: int, j: int| 0 <= i < j < out@.len() ==> out@[i].0 < out@[j].0,
            forall|i: int|
                0 <= i < out@.len() ==> has_text_value(
                    self@,
                    (#[trigger] out@[i]).0,
                    label@,
                    property@,
                    out@[i].1@,
                ),
            forall|id: NodeId, text: Seq<char>| #[trigger]
                has_text_value(self@, id, label@, property@, text) ==> exists|i: int|
                    0 <= i < out@.len() && (#[trigger] out@[i]).0 == id && out@[i].1@ == text,
    {
        let ids: Vec<NodeId> = self.nodes_by_label(label);
        let mut out: Vec<(NodeId, String)> = Vec::new();
        let mut k: usize = 0;
        while k < ids.len()
            invariant
                self.wf(),
                ascending(ids@),
                forall|id: NodeId| #[trigger] ids@.contains(id) <==> self@.carries(id, label@),
                k <= ids@.len(),
                forall|i: int, j: int| 0 <= i < j < out@.len() ==> out@[i].0 < out@[j].0,
                forall|i: int|
                    0 <= i < out@.len() ==> has_text_value(
                        self@,
                        (#[trigger] out@[i]).0,
                        label@,
                        property@,
                        out@[i].1@,
                    ) && ids@.take(k as int).contains(out@[i].0),
                forall|m: int, text: Seq<char>|
                    0 <= m < k && #[trigger] has_text_value(
                        self@,
                        ids@[m],
                        label@,
                        property@,
                        text,
                    ) ==> exists|i: int|
                        0 <= i < out@.len() && (#[trigger] out@[i]).0 == ids@[m] && out@[i].1@
                            == text,
            decreases ids@.len() - k,
        {
            let id: NodeId = ids[k];
            let ghost before = out@;
            assert(ids@.contains(id));
            if let Some(record) = self.store.nodes.get(id) {
                assert(self.store.nodes@.dom().contains(id));
                if let Some(PropValue::Str(s)) = record.props.get(property) {
                    out.push((id, s.clone()));
                    assert(has_text_value(self@, id, label@, property@, s@));
                }
            }
            proof {
                let part = ids@.take(k + 1);
                assert(part[k as int] == id);
                assert forall|i: int| 0 <= i < before.len() implies before[i].0 < id && part.contains(
                    before[i].0,
                ) by {
                    let m = ids@.take(k as int).index_of(before[i].0);
                    assert(ids@.take(k as int)[m] == ids@[m]);
                    assert(part[m] == before[i].0);
                }
                assert forall|m: int, text: Seq<char>|
                    0 <= m < k + 1 && #[trigger] has_text_value(
                        self@,
                        ids@[m],
                        label@,
                        property@,
                        text,
                    ) implies exists|i: int|
                    0 <= i < out@.len() && (#[trigger] out@[i]).0 == ids@[m] && out@[i].1@
                        == text by {
                    if m < k {
                        let i = choose|i: int|
                            0 <= i < before.len() && (#[trigger] before[i]).0 == ids@[m]
                                && before[i].1@ == text;
                        assert(out@[i] == before[i]);
                    } else {
                        assert(out@[before.len() as int].0 == id);
                    }
                }
            }
            k = k + 1;
        }
        proof {
            assert forall|id: NodeId, text: Seq<char>| #[trigger]
                has_text_value(self@, id, label@, property@, text) implies exists|i: int|
                0 <= i < out@.len() && (#[trigger] out@[i]).0 == id && out@[i].1@ == text by {
                assert(ids@.contains(id));
                let m = ids@.index_of(id);
                assert(has_text_value(self@, ids@[m], label@, property@, text));
            }
        }
        out
    }

    /// Defines a text index on a property of a label over these documents, where
    /// there is none yet.
    pub fn create_node_text_index_with_language(
        &mut self,
        label: &str,
        property: &str,
        language: u8,
        documents: &Vec<(NodeId, Vec<(String, u32)>)>,
    )
        requires
            old(self).wf(),
            old(self)@.labels.len() < u32::MAX,
            old(self)@.keys.len() < u32::MAX,
            forall|i: int, j: int|
                0 <= i < j < documents@.len() ==> (#[trigger] documents@[i]).0 != (
                #[trigger] documents@[j]).0,
            forall|i: int|
                0 <= i < documents@.len() ==> doc_len(terms_of((#[trigger] documents@[i]).1@))
                    <= u32::MAX,
        ensures
            final(self).wf(),
            final(self)@ == old(self)@.with_names(label@, property@),
            final(self).write_gen == old(self).write_gen,
            old(self).keeps_snapshot(*final(self)),
            old(self).keeps_settings(*final(self)),
            final(self).text_scope(label@, property@) matches Some((l, p)) && final(self).texts@
                == if has_text(old(self).texts@, l, p) {
                old(self).texts@
            } else {
                old(self).texts@.insert(
                    text_place(old(self).texts@, l, p, 0),
                    (TextDef { label: l, prop: p, language, docs: documents_of(documents@) }),
                )
            },
    {
        let ghost before = *self;
        let (l, p): (LabelId, PropKeyId) = self.store.number_names(label, property);
        self.texts.define(l, p, language, documents);
        proof {
            lemma_store_sound(self.store);
            assert(before@.labels.is_prefix_of(self@.labels));
            self.lemma_scans_kept(before);
        }
    }

    /// Takes the text index on a property of a label away, where there is one.
    pub fn drop_node_text_index(&mut self, label: &str, property: &str)
        requires
            old(self).wf(),
            old(self)@.labels.len() < u32::MAX,
            old(self)@.keys.len() < u32::MAX,
        ensures
            final(self).wf(),
            final(self)@ == old(self)@.with_names(label@, property@),
            final(self).write_gen == old(self).write_gen,
            old(self).keeps_snapshot(*final(self)),
            old(self).keeps_settings(*final(self)),
            final(self).text_scope(label@, property@) matches Some((l, p)) && final(self).texts@
                == if has_text(old(self).texts@, l, p) {
                old(self).texts@.remove(text_position(old(self).texts@, l, p))
            } else {
                old(self).texts@
            },
    {
        let ghost before = *self;
        let (l, p): (LabelId, PropKeyId) = self.store.number_names(label, property);
        self.texts.undefine(l, p);
        proof {
            lemma_store_sound(self.store);
            assert(before@.labels.is_prefix_of(self@.labels));
            self.lemma_scans_kept(before);
        }
    }

    /// The text indexes: label, property and language.
    pub fn active_text_indexes(&self) -> (out: Vec<(String, String, u8)>)
        requires
            self.wf(),
        ensures
            out@.map_values(active_entry()) == active_from(
                self.texts@,
                self@.labels,
                self@.keys,
            ),
    {
        let mut out: Vec<(String, String, u8)> = Vec::new();
        let mut i: usize = 0;
        assert(self.texts@.take(0) =~= Seq::<TextDef>::empty());
        assert(out@.map_values(active_entry()) =~= Seq::empty());
        while i < self.texts.list.len()
            invariant
                self.wf(),
                i <= self.texts.list@.len(),
                out@.map_values(active_entry()) == active_from(
                    self.texts@.take(i as int),
                    self@.labels,
                    self@.keys,
                ),
            decreases self.texts.list@.len() - i,
        {
            let ghost before = out@;
            proof {
                assert(self.texts@[i as int] == self.texts.list@[i as int].def());
                assert(self.texts@.take(i + 1).drop_last() =~= self.texts@.take(i as int));
                assert(self.texts@.take(i + 1).last() == self.texts@[i as int]);
            }
            let (l, p): (LabelId, PropKeyId) = (self.texts.list[i].label, self.texts.list[i].prop);
            if let Some(label) = self.store.labels.scopes.name(l) {
                if let Some(property) = self.store.prop_keys.name(p) {
                    let ghost entry = (label@, property@, self.texts.list@[i as int].language);
                    out.push((label, property, self.texts.list[i].language));
                    assert(out@.map_values(active_entry()) =~= before.map_values(
                        active_entry(),
                    ).push(entry));
                }
            }
            i = i + 1;
        }
        assert(self.texts@.take(i as int) =~= self.texts@);
        out
    }

    /// The texts of a node that the text indexes take, under its labels in their order.
    pub fn node_texts(&self, id: NodeId) -> (out: Vec<(LabelId, PropKeyId, String)>)
        requires
            self.wf(),
        ensures
            out@.map_values(text_entry()) == if self@.nodes.dom().contains(id) {
                texts_under(
                    pairs_of(self.texts@),
                    self@.keys,
                    self@.nodes[id].labels,
                    self@.nodes[id].props,
                )
            } else {
                Seq::empty()
            },
    {
        let mut out: Vec<(LabelId, PropKeyId, String)> = Vec::new();
        assert(out@.map_values(text_entry()) =~= Seq::empty());
        let record: &NodeRecord = match self.store.nodes.get(id) {
            Some(record) => record,
            None => {
                return out;
            },
        };
        assert(self.store.nodes@.dom().contains(id));
        let pairs: Vec<(LabelId, PropKeyId)> = self.texts.pairs();
        let mut i: usize = 0;
        let ghost labels = record.labels@;
        assert(labels.take(0) =~= Seq::<LabelId>::empty());
        while i < record.labels.len()
            invariant
                record.props.wf(),
                labels == record.labels@,
                i <= labels.len(),
                out@.map_values(text_entry()) == texts_under(
                    pairs@,
                    self.store.prop_keys@,
                    labels.take(i as int),
                    record.props@,
                ),
            decreases labels.len() - i,
        {
            let l: LabelId = record.labels[i];
            let texts: Vec<(PropKeyId, String)> = indexed_texts(
                &pairs,
                &self.store.prop_keys,
                l,
                &record.props,
            );
            let ghost f = |t: (PropKeyId, String)| (t.0, t.1@);
            let ghost tagged = texts@.map_values(f).map_values(
                |t: (PropKeyId, Seq<char>)| (l, t.0, t.1),
            );
            let ghost before = out@;
            proof {
                assert(labels.take(i + 1).drop_last() =~= labels.take(i as int));
                assert(labels.take(i + 1).last() == l);
                assert(before.map_values(text_entry()) + tagged.take(0) =~= before.map_values(
                    text_entry(),
                ));
            }
            let mut k: usize = 0;
            while k < texts.len()
                invariant
                    k <= texts@.len(),
                    f == (|t: (PropKeyId, String)| (t.0, t.1@)),
                    tagged == texts@.map_values(f).map_values(
                        |t: (PropKeyId, Seq<char>)| (l, t.0, t.1),
                    ),
                    out@.map_values(text_entry()) == before.map_values(text_entry())
                        + tagged.take(k as int),
                decreases texts@.len() - k,
            {
                let ghost had = out@;
                out.push((l, texts[k].0, texts[k].1.clone()));
                proof {
                    assert(tagged[k as int] == (l, texts@[k as int].0, texts@[k as int].1@));
                    assert(tagged.take(k + 1) =~= tagged.take(k as int).push(tagged[k as int]));
                    assert(out@.map_values(text_entry()) =~= had.map_values(text_entry()).push(
                        tagged[k as int],
                    ));
                }
                k = k + 1;
                assert(out@.map_values(text_entry()) =~= before.map_values(text_entry())
                    + tagged.take(k as int));
            }
            assert(tagged.take(k as int) =~= tagged);
            i = i + 1;
        }
        assert(labels.take(i as int) =~= labels);
        out
    }

    /// Adds a node's document to the text index on a property of a label, where
    /// there is one. A document without terms is not added.
    pub fn add_node_prop_fts_entry(
        &mut self,
        node: NodeId,
        label: LabelId,
        prop: PropKeyId,
        terms: &Vec<(String, u32)>,
    )
        requires
            old(self).wf(),
            has_text(old(self).texts@, label, prop) ==> !old(self).texts@[text_position(
                old(self).texts@,
                label,
                prop,
            )].docs.dom().contains(node),
            doc_len(terms_of(terms@)) <= u32::MAX,
        ensures
            final(self).wf(),
            *final(self) == (Graph { texts: final(self).texts, ..*old(self) }),
            final(self).texts@ == with_document(
                old(self).texts@,
                node,
                label,
                prop,
                terms_of(terms@),
            ),
    {
        self.texts.add_entry(node, label, prop, terms);
    }

    /// Removes a node's document from the text index on a property of a label,
    /// where it is there. `terms` are those that it was added with.
    pub fn remove_node_prop_fts_entry(
        &mut self,
        node: NodeId,
        label: LabelId,
        prop: PropKeyId,
        terms: &Vec<(String, u32)>,
    )
        requires
            old(self).wf(),
            has_text(old(self).texts@, label, prop) && old(self).texts@[text_position(
                old(self).texts@,
                label,
                prop,
            )].docs.dom().contains(node) ==> old(self).texts@[text_position(
                old(self).texts@,
                label,
                prop,
            )].docs[node] == terms_of(terms@),
        ensures
            final(self).wf(),
            *final(self) == (Graph { texts: final(self).texts, ..*old(self) }),
            final(self).texts@ == without_document(old(self).texts@, node, label, prop),
    {
        self.texts.remove_entry(node, label, prop, terms);
    }

    /// How many documents a text index has, and how long they are all together.
    pub fn fts_stats(&self, label: &str, property: &str) -> (r: Option<(u64, u64)>)
        requires
            self.wf(),
            forall|i: int|
                0 <= i < self.texts.list@.len() ==> lengths(
                    (#[trigger] self.texts.list@[i]).docs.vals@,
                    self.texts.list@[i].docs.vals@.len() as int,
                ) <= u64::MAX,
        ensures
            r is Some <==> self.text_indexed(label@, property@),
            r matches Some((n, total)) ==> counted(
                self.text_docs(label@, property@),
                n as nat,
                total as nat,
            ),
    {
        match self.text_index_at(label, property) {
            Some(i) => Some(self.texts.list[i].fts_stats()),
            None => None,
        }
    }

    /// The length of a node's document in a text index.
    pub fn fts_doc_len(&self, label: &str, property: &str, node: NodeId) -> (r: Option<u32>)
        requires
            self.wf(),
        ensures
            r is Some <==> self.text_indexed(label@, property@) && self.text_docs(
                label@,
                property@,
            ).dom().contains(node),
            r matches Some(n) ==> n == doc_len(self.text_docs(label@, property@)[node]),
    {
        match self.text_index_at(label, property) {
            Some(i) => self.texts.list[i].fts_doc_len(node),
            None => None,
        }
    }

    /// The nodes whose documents in a text index have a term, with its
    /// frequencies, in ascending order.
    pub fn fts_postings(&self, label: &str, property: &str, term: &str) -> (out: Vec<
        (NodeId, u32),
    >)
        requires
            self.wf(),
        ensures
            forall|i: int, j: int|
                0 <= i < j < out@.len() ==> out@[i].0 < out@[j].0 || (out@[i].0 == out@[j].0
                    && out@[i].1 < out@[j].1),
            forall|node: NodeId, f: u32| #[trigger]
                out@.contains((node, f)) <==> self.text_indexed(label@, property@)
                    && self.text_docs(label@, property@).dom().contains(node) && self.text_docs(
                    label@,
                    property@,
                )[node].contains((term@, f)),
    {
        match self.text_index_at(label, property) {
            Some(i) => self.texts.list[i].fts_postings(term),
            None => Vec::new(),
        }
    }
}

} // verus!
