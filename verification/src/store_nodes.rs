//! Adding, changing and deleting nodes and edges.

use vstd::prelude::*;

use crate::catalog::{
    indexed_name, names_grow, roomy, Catalog, Holding,
};
use crate::error::Error;
use crate::schema::{EdgeId, LabelId, NodeId};
use crate::store::{
    breached, explains, label_holding, marks, names_of, numbers_of, refused, type_holding,
    with_names, Content, Node, NodeRecord, Store,
};
use crate::tables::{lemma_with_name, number_of_name, with_name, Names, Props};
use crate::value::Val;

verus! {

/// Enrolling a member in these scopes.
pub open spec fn enrolled(
    h: Holding,
    scopes: Seq<u32>,
    id: u64,
    props: Map<Seq<char>, Val>,
) -> Holding {
    Map::new(
        |k: (u32, u64)| h.dom().contains(k) || (k.1 == id && scopes.contains(k.0)),
        |k: (u32, u64)|
            if k.1 == id && scopes.contains(k.0) {
                props
            } else {
                h[k]
            },
    )
}

/// Dismissing a member from these scopes.
pub open spec fn dismissed(h: Holding, scopes: Seq<u32>, id: u64) -> Holding {
    h.remove_keys(Set::new(|k: (u32, u64)| k.1 == id && scopes.contains(k.0)))
}

/// Names that have grown twice by the same properties have grown once.
proof fn lemma_names_grow(
    a: Seq<Seq<char>>,
    b: Seq<Seq<char>>,
    c: Seq<Seq<char>>,
    props: Map<Seq<char>, Val>,
)
    requires
        names_grow(a, b, props),
        names_grow(b, c, props),
    ensures
        names_grow(a, c, props),
{
    assert forall|i: int| 0 <= i < a.len() implies a[i] == c[i] by {
        assert(b[i] == c[i]);
    }
    assert(a.is_prefix_of(c));
    assert forall|name: Seq<char>| #[trigger] c.contains(name) <==> a.contains(name)
        || indexed_name(props, name) by {
        assert(b.contains(name) <==> a.contains(name) || indexed_name(props, name));
    }
}

/// Enrolls a node under each of its labels.
fn enroll_all(
    labels: &mut Catalog,
    keys: &mut Names,
    list: &Vec<LabelId>,
    id: NodeId,
    props: &Props,
    h: Ghost<Holding>,
)
    requires
        old(labels).auto,
        old(labels).matches(h@, old(keys)@),
        old(keys).wf(),
        roomy(old(keys)@, props.entries@),
        props.wf(),
        list@.no_duplicates(),
        forall|i: int|
            0 <= i < list@.len() ==> (#[trigger] list@[i]) < old(labels).scopes@.len()
                && !h@.dom().contains((list@[i], id)),
    ensures
        final(labels).matches(enrolled(h@, list@, id, props@), final(keys)@),
        final(keys).wf(),
        list@.len() > 0 ==> names_grow(old(keys)@, final(keys)@, props@),
        list@.len() == 0 ==> final(keys)@ == old(keys)@,
        final(labels).scopes == old(labels).scopes,
        final(labels).defs == old(labels).defs,
        final(labels).auto,
        marks(*final(labels)) == marks(*old(labels)),
{
    let ghost h0 = h@;
    let ghost before = *labels;
    let ghost first = keys@;
    let mut now: Ghost<Holding> = Ghost(h0);
    let mut k: usize = 0;
    proof {
        assert(enrolled(h0, list@.take(0), id, props@) =~= h0);
    }
    while k < list.len()
        invariant
            k <= list@.len(),
            now@ == enrolled(h0, list@.take(k as int), id, props@),
            labels.matches(now@, keys@),
            labels.auto,
            keys.wf(),
            roomy(keys@, props.entries@),
            props.wf(),
            k > 0 ==> names_grow(first, keys@, props@),
            k == 0 ==> keys@ == first,
            list@.no_duplicates(),
            forall|i: int|
                0 <= i < list@.len() ==> (#[trigger] list@[i]) < before.scopes@.len()
                    && !h0.dom().contains((list@[i], id)),
            labels.scopes == before.scopes,
            labels.defs == before.defs,
            marks(*labels) == marks(before),
        decreases list@.len() - k,
    {
        let l: LabelId = list[k];
        let ghost was = *labels;
        let ghost had = keys@;
        proof {
            assert(!now@.dom().contains((l, id))) by {
                if list@.take(k as int).contains(l) {
                    let j = list@.take(k as int).index_of(l);
                    assert(list@[j] == list@[k as int]);
                }
            }
        }
        labels.enroll(keys, l, id, props, now);
        proof {
            if k > 0 {
                lemma_names_grow(first, had, keys@, props@);
            }
            assert(marks(*labels) =~= marks(was));
            let next = enrolled(h0, list@.take(k + 1), id, props@);
            assert forall|x: u32| #[trigger] list@.take(k + 1).contains(x) <==> list@.take(
                k as int,
            ).contains(x) || x == l by {
                if list@.take(k as int).contains(x) {
                    let j = list@.take(k as int).index_of(x);
                    assert(list@.take(k + 1)[j] == x);
                }
                assert(list@.take(k + 1)[k as int] == l);
                if list@.take(k + 1).contains(x) {
                    let j = list@.take(k + 1).index_of(x);
                    if j < k {
                        assert(list@.take(k as int)[j] == x);
                    }
                }
            }
            assert(now@.insert((l, id), props@) =~= next);
        }
        now = Ghost(now@.insert((l, id), props@));
        k = k + 1;
    }
    assert(list@.take(k as int) =~= list@);
}

/// Dismisses a node from each of its labels.
pub(crate) fn dismiss_all(
    labels: &mut Catalog,
    keys: &Names,
    list: &Vec<LabelId>,
    id: NodeId,
    props: &Props,
    h: Ghost<Holding>,
)
    requires
        old(labels).matches(h@, keys@),
        keys.wf(),
        props.wf(),
        list@.no_duplicates(),
        forall|i: int|
            0 <= i < list@.len() ==> h@.dom().contains((#[trigger] list@[i], id))
                && h@[(list@[i], id)] == props@,
    ensures
        final(labels).matches(dismissed(h@, list@, id), keys@),
        final(labels).scopes == old(labels).scopes,
        final(labels).defs == old(labels).defs,
        final(labels).auto == old(labels).auto,
        marks(*final(labels)) == marks(*old(labels)).filter(
            |k: (u32, u32, u64)| !(k.2 == id && list@.contains(k.0)),
        ),
{
    let ghost h0 = h@;
    let ghost before = *labels;
    let mut now: Ghost<Holding> = Ghost(h0);
    let mut k: usize = 0;
    proof {
        assert(dismissed(h0, list@.take(0), id) =~= h0);
    }
    while k < list.len()
        invariant
            k <= list@.len(),
            now@ == dismissed(h0, list@.take(k as int), id),
            labels.matches(now@, keys@),
            keys.wf(),
            props.wf(),
            list@.no_duplicates(),
            forall|i: int|
                0 <= i < list@.len() ==> h0.dom().contains((#[trigger] list@[i], id)) && h0[(
                    list@[i],
                    id,
                )] == props@,
            labels.scopes == before.scopes,
            labels.defs == before.defs,
            labels.auto == before.auto,
            forall|t: u32, p: u32, x: u64| #[trigger]
                labels.marked(t, p, x) == (before.marked(t, p, x) && !(x == id && list@.take(
                    k as int,
                ).contains(t))),
        decreases list@.len() - k,
    {
        let l: LabelId = list[k];
        let ghost was = *labels;
        proof {
            assert(now@.dom().contains((l, id))) by {
                if list@.take(k as int).contains(l) {
                    let j = list@.take(k as int).index_of(l);
                    assert(list@[j] == list@[k as int]);
                }
            }
        }
        labels.dismiss(keys, l, id, props, now);
        proof {
            assert forall|x: u32| #[trigger] list@.take(k + 1).contains(x) <==> list@.take(
                k as int,
            ).contains(x) || x == l by {
                if list@.take(k as int).contains(x) {
                    let j = list@.take(k as int).index_of(x);
                    assert(list@.take(k + 1)[j] == x);
                }
                assert(list@.take(k + 1)[k as int] == l);
                if list@.take(k + 1).contains(x) {
                    let j = list@.take(k + 1).index_of(x);
                    if j < k {
                        assert(list@.take(k as int)[j] == x);
                    }
                }
            }
            assert(now@.remove((l, id)) =~= dismissed(h0, list@.take(k + 1), id));
            assert forall|t: u32, p: u32, x: u64| #[trigger]
                labels.marked(t, p, x) == (before.marked(t, p, x) && !(x == id && list@.take(
                    k + 1,
                ).contains(t))) by {
                assert(was.marked(t, p, x) == (before.marked(t, p, x) && !(x == id && list@.take(
                    k as int,
                ).contains(t))));
            }
        }
        now = Ghost(now@.remove((l, id)));
        k = k + 1;
    }
    proof {
        assert(list@.take(k as int) =~= list@);
        assert(marks(*labels) =~= marks(before).filter(
            |k: (u32, u32, u64)| !(k.2 == id && list@.contains(k.0)),
        ));
    }
}

/// Numbers a list of labels, adding the names that have none.
fn number_all(scopes: &mut Names, labels: &[&str]) -> (list: Vec<LabelId>)
    requires
        old(scopes).wf(),
        old(scopes)@.len() + labels@.len() <= u32::MAX,
    ensures
        final(scopes).wf(),
        final(scopes)@ == with_names(old(scopes)@, names_of(labels@)),
        list@ == numbers_of(old(scopes)@, names_of(labels@)),
        list@.no_duplicates(),
        old(scopes)@.len() <= final(scopes)@.len(),
        forall|i: int| 0 <= i < list@.len() ==> (#[trigger] list@[i]) < final(scopes)@.len(),
{
    let ghost names = names_of(labels@);
    let ghost first = scopes@;
    let mut list: Vec<LabelId> = Vec::new();
    let mut k: usize = 0;
    assert(names.take(0) =~= Seq::<Seq<char>>::empty());
    while k < labels.len()
        invariant
            names == names_of(labels@),
            k <= labels@.len(),
            scopes.wf(),
            first.len() + labels@.len() <= u32::MAX,
            first.len() <= scopes@.len() <= first.len() + k,
            scopes@ == with_names(first, names.take(k as int)),
            list@ == numbers_of(first, names.take(k as int)),
            list@.no_duplicates(),
            forall|i: int| 0 <= i < list@.len() ==> (#[trigger] list@[i]) < scopes@.len(),
        decreases labels@.len() - k,
    {
        proof {
            assert(names.take(k + 1).drop_last() =~= names.take(k as int));
            assert(names.take(k + 1).last() == labels@[k as int]@);
        }
        let l: LabelId = scopes.number_or_add(labels[k]);
        if !has_label(&list, l) {
            list.push(l);
        }
        k = k + 1;
    }
    assert(names.take(k as int) =~= names);
    list
}

/// Whether a list holds a label.
pub fn has_label(list: &Vec<LabelId>, l: LabelId) -> (r: bool)
    ensures
        r == list@.contains(l),
{
    let mut i: usize = 0;
    while i < list.len()
        invariant
            i <= list@.len(),
            forall|j: int| 0 <= j < i ==> list@[j] != l,
        decreases list@.len() - i,
    {
        if list[i] == l {
            assert(list@[i as int] == l);
            return true;
        }
        i = i + 1;
    }
    false
}

impl Store {
    /// Adds a node with these labels and properties, unless a constraint refuses it.
    pub fn add_node_impl(&mut self, labels: &[&str], props: &Props) -> (r: Result<NodeId, Error>)
        requires
            old(self).wf(),
            props.wf(),
            old(self)@.next_node < u64::MAX,
            old(self)@.labels.len() + labels@.len() <= u32::MAX,
            old(self)@.keys.len() + props.entries@.len() <= u32::MAX,
        ensures
            final(self).wf(),
            r is Err <==> old(self)@.refuses_node(
                names_of(labels@),
                old(self)@.next_node,
                props@,
            ),
            r matches Err(e) ==> *final(self) == *old(self) && old(self)@.explains_node(
                e,
                names_of(labels@),
                old(self)@.next_node,
                props@,
            ),
            r matches Ok(id) ==> id == old(self)@.next_node && old(self)@.with_node(
                names_of(labels@),
                props@,
                final(self)@,
            ),
    {
        let ghost before = *self;
        let ghost names = names_of(labels@);
        let id: NodeId = self.next_node;
        if let Some(e) = self.node_breach(labels, id, props) {
            return Err(e);
        }
        let ghost h0 = label_holding(before@.nodes);
        let ghost first = self.prop_keys@;
        let list: Vec<LabelId> = number_all(&mut self.labels.scopes, labels);
        proof {
            assert(self.labels == Catalog { scopes: self.labels.scopes, ..before.labels });
            self.labels.lemma_more_scopes(before.labels, h0, first);
            assert(!before.nodes@.dom().contains(id));
            assert(marks(self.labels) =~= marks(before.labels));
        }
        enroll_all(&mut self.labels, &mut self.prop_keys, &list, id, props, Ghost(h0));
        let ghost node = Node { labels: list@, props: props@ };
        self.nodes.put(id, NodeRecord { labels: list, props: props.copy() });
        self.next_node = id + 1;
        proof {
            assert(self@.nodes =~= before@.nodes.insert(id, node));
            assert(self@.edges =~= before@.edges);
            assert(label_holding(self@.nodes) =~= enrolled(h0, node.labels, id, props@));
            self.types.lemma_more_names(type_holding(self@.edges), first, self.prop_keys@);
            assert forall|x: NodeId| #[trigger] self.nodes@.dom().contains(x) implies x
                < self.next_node && self.nodes@[x].props.wf()
                && self.nodes@[x].labels@.no_duplicates() by {
                if x != id {
                    assert(before.nodes@.dom().contains(x));
                }
            }
            assert forall|x: EdgeId| #[trigger] self.edges@.dom().contains(x) implies x
                < self.next_edge && self.edges@[x].props.wf() && self.nodes@.dom().contains(
                self.edges@[x].src,
            ) && self.nodes@.dom().contains(self.edges@[x].dst) by {
                assert(before.edges@.dom().contains(x));
            }
        }
        Ok(id)
    }
}

impl Content {
    /// A node with these labels and properties is added, and nothing else changes.
    pub open spec fn with_node(
        &self,
        labels: Seq<Seq<char>>,
        props: Map<Seq<char>, Val>,
        now: Content,
    ) -> bool {
        &&& if labels.len() > 0 {
            names_grow(self.keys, now.keys, props)
        } else {
            now.keys == self.keys
        }
        &&& now == (Content {
            nodes: self.nodes.insert(
                self.next_node,
                Node { labels: numbers_of(self.labels, labels), props },
            ),
            labels: with_names(self.labels, labels),
            keys: now.keys,
            next_node: (self.next_node + 1) as u64,
            ..*self
        })
    }
}

/// The marks without those of one member.
pub open spec fn without_member(m: Set<(u32, u32, u64)>, id: u64) -> Set<(u32, u32, u64)> {
    m.filter(|k: (u32, u32, u64)| k.2 != id)
}

/// The marks without those of one member of one scope.
pub open spec fn without_scope(m: Set<(u32, u32, u64)>, s: u32, id: u64) -> Set<(u32, u32, u64)> {
    m.filter(|k: (u32, u32, u64)| !(k.0 == s && k.2 == id))
}

impl Content {
    /// Whether the constraints on the labels of a node refuse these properties.
    pub open spec fn refuses_update(&self, id: NodeId, props: Map<Seq<char>, Val>) -> bool {
        exists|k: int|
            0 <= k < self.nodes[id].labels.len() && refused(
                label_holding(self.nodes),
                self.keys,
                self.label_defs,
                #[trigger] self.nodes[id].labels[k],
                id,
                props,
            )
    }

    /// The error says which constraint on the first refusing label is broken.
    pub open spec fn explains_update(
        &self,
        e: Error,
        id: NodeId,
        props: Map<Seq<char>, Val>,
    ) -> bool {
        exists|k: int|
            {
                &&& 0 <= k < self.nodes[id].labels.len()
                &&& explains(
                    label_holding(self.nodes),
                    self.keys,
                    self.label_defs,
                    #[trigger] self.nodes[id].labels[k],
                    self.labels[self.nodes[id].labels[k] as int],
                    id,
                    props,
                    e,
                )
                &&& forall|j: int|
                    0 <= j < k ==> !refused(
                        label_holding(self.nodes),
                        self.keys,
                        self.label_defs,
                        #[trigger] self.nodes[id].labels[j],
                        id,
                        props,
                    )
            }
    }

    /// The node has these properties, and nothing else changes.
    pub open spec fn with_node_props(
        &self,
        id: NodeId,
        props: Map<Seq<char>, Val>,
        now: Content,
    ) -> bool {
        &&& if self.nodes[id].labels.len() > 0 {
            names_grow(self.keys, now.keys, props)
        } else {
            now.keys == self.keys
        }
        &&& now == (Content {
            nodes: self.nodes.insert(id, Node { labels: self.nodes[id].labels, props }),
            keys: now.keys,
            label_marks: without_member(self.label_marks, id),
            ..*self
        })
    }

    /// The node carries one more label, and nothing else changes.
    pub open spec fn with_label(&self, id: NodeId, label: Seq<char>, now: Content) -> bool {
        let labels = with_name(self.labels, label);
        let l = number_of_name(labels, label)->0;
        &&& names_grow(self.keys, now.keys, self.nodes[id].props)
        &&& now == (Content {
            nodes: self.nodes.insert(
                id,
                Node { labels: self.nodes[id].labels.push(l), props: self.nodes[id].props },
            ),
            labels,
            keys: now.keys,
            ..*self
        })
    }

    /// This content with one label less on a node.
    pub open spec fn without_label(&self, id: NodeId, l: LabelId) -> Content {
        let labels = self.nodes[id].labels;
        Content {
            nodes: self.nodes.insert(
                id,
                Node { labels: labels.remove(labels.index_of(l)), props: self.nodes[id].props },
            ),
            label_marks: without_scope(self.label_marks, l, id),
            ..*self
        }
    }
}

/// A mark is that of a member.
pub proof fn lemma_marks_of_labels(s: Store, l: u32, p: u32, id: u64)
    requires
        s.wf(),
        s.labels.marked(l, p, id),
    ensures
        s@.nodes.dom().contains(id),
        s@.nodes[id].labels.contains(l),
{
    assert(label_holding(s@.nodes).dom().contains((l, id)));
}

impl Store {
    /// A node's labels are numbers of names, and it is enrolled under each.
    pub proof fn lemma_labels_held(&self, id: NodeId)
        requires
            self.wf(),
            self.nodes@.dom().contains(id),
        ensures
            forall|i: int|
                0 <= i < self.nodes@[id].labels@.len() ==> {
                    &&& label_holding(self@.nodes).dom().contains(
                        (#[trigger] self.nodes@[id].labels@[i], id),
                    )
                    &&& label_holding(self@.nodes)[(self.nodes@[id].labels@[i], id)]
                        == self.nodes@[id].props@
                    &&& self.nodes@[id].labels@[i] < self@.labels.len()
                },
    {
        let list = self.nodes@[id].labels@;
        assert forall|i: int| 0 <= i < list.len() implies {
            &&& label_holding(self@.nodes).dom().contains((#[trigger] list[i], id))
            &&& label_holding(self@.nodes)[(list[i], id)] == self.nodes@[id].props@
            &&& list[i] < self@.labels.len()
        } by {
            assert(self@.nodes[id].labels.contains(list[i]));
            assert(label_holding(self@.nodes).dom().contains((list[i], id)));
        }
    }

    /// The first constraint on a node's labels that these properties would break.
    fn update_breach(&self, list: &Vec<LabelId>, id: NodeId, props: &Props) -> (r: Option<Error>)
        requires
            self.wf(),
            props.wf(),
            self.nodes@.dom().contains(id),
            list@ == self.nodes@[id].labels@,
        ensures
            r is Some <==> self@.refuses_update(id, props@),
            r matches Some(e) ==> self@.explains_update(e, id, props@),
    {
        let ghost h = label_holding(self@.nodes);
        let ghost c = self@;
        let mut k: usize = 0;
        while k < list.len()
            invariant
                self.wf(),
                props.wf(),
                c == self@,
                h == label_holding(c.nodes),
                self.nodes@.dom().contains(id),
                list@ == c.nodes[id].labels,
                list@ == self.nodes@[id].labels@,
                k <= list@.len(),
                forall|j: int|
                    0 <= j < k ==> !refused(
                        h,
                        c.keys,
                        c.label_defs,
                        #[trigger] c.nodes[id].labels[j],
                        id,
                        props@,
                    ),
            decreases list@.len() - k,
        {
            let l: LabelId = list[k];
            proof {
                self.lemma_recorded();
                self.lemma_labels_held(id);
                assert(self.nodes@[id].labels@[k as int] == l);
            }
            match self.labels.breach(&self.nodes, &self.prop_keys, l, id, props, Ghost(h)) {
                Some(e) => {
                    proof {
                        lemma_breach_explains(
                            self.labels,
                            h,
                            c.keys,
                            l,
                            self.labels.scopes@[l as int],
                            id,
                            props@,
                            e,
                        );
                        assert(c.nodes[id].labels[k as int] == l);
                    }
                    return Some(e);
                },
                None => {
                    proof {
                        lemma_no_breach_of(self.labels, h, c.keys, l, id, props@);
                    }
                },
            }
            k = k + 1;
        }
        None
    }

    /// Replaces the properties of a node, unless a constraint refuses them.
    pub fn update_node_impl(&mut self, id: NodeId, props: &Props) -> (r: Result<(), Error>)
        requires
            old(self).wf(),
            props.wf(),
            old(self)@.keys.len() + props.entries@.len() <= u32::MAX,
        ensures
            final(self).wf(),
            r is Err ==> *final(self) == *old(self),
            r == Err::<(), Error>(Error::NodeNotFound(id)) <==> !old(self)@.nodes.dom().contains(
                id,
            ),
            old(self)@.nodes.dom().contains(id) ==> (r is Err <==> old(self)@.refuses_update(
                id,
                props@,
            )),
            r matches Err(e) ==> !old(self)@.nodes.dom().contains(id)
                || old(self)@.explains_update(e, id, props@),
            r is Ok ==> old(self)@.with_node_props(id, props@, final(self)@),
    {
        let ghost before = *self;
        match self.nodes.get(id) {
            None => {
                return Err(Error::NodeNotFound(id));
            },
            Some(record) => {
                if let Some(e) = self.update_breach(&record.labels, id, props) {
                    return Err(e);
                }
            },
        }
        let ghost h0 = label_holding(before@.nodes);
        let ghost first = self.prop_keys@;
        proof {
            self.lemma_labels_held(id);
        }
        let taken: Option<NodeRecord> = self.nodes.take(id);
        if let Some(record) = taken {
            let ghost list = record.labels@;
            dismiss_all(
                &mut self.labels,
                &self.prop_keys,
                &record.labels,
                id,
                &record.props,
                Ghost(h0),
            );
            let ghost h1 = dismissed(h0, list, id);
            proof {
                assert forall|i: int| 0 <= i < list.len() implies (#[trigger] list[i])
                    < self.labels.scopes@.len() && !h1.dom().contains((list[i], id)) by {
                    assert(list.contains(list[i]));
                    assert(before.nodes@[id].labels@[i] == list[i]);
                }
                assert(marks(self.labels) =~= without_member(before@.label_marks, id)) by {
                    assert forall|k: (u32, u32, u64)| marks(self.labels).contains(k)
                        <==> without_member(before@.label_marks, id).contains(k) by {
                        if before.labels.marked(k.0, k.1, k.2) && k.2 == id {
                            lemma_marks_of_labels(before, k.0, k.1, k.2);
                        }
                    }
                }
            }
            enroll_all(
                &mut self.labels,
                &mut self.prop_keys,
                &record.labels,
                id,
                props,
                Ghost(h1),
            );
            let ghost node = Node { labels: list, props: props@ };
            self.nodes.put(id, NodeRecord { labels: record.labels, props: props.copy() });
            proof {
                assert(self@.nodes =~= before@.nodes.insert(id, node));
                assert(self@.edges =~= before@.edges);
                assert(label_holding(self@.nodes) =~= enrolled(h1, list, id, props@));
                self.types.lemma_more_names(type_holding(self@.edges), first, self.prop_keys@);
                lemma_same_ends(before, *self);
            }
        }
        Ok(())
    }

    /// Adds a label to a node, unless a constraint on it refuses the node.
    pub fn add_label_impl(&mut self, id: NodeId, label: &str) -> (r: Result<(), Error>)
        requires
            old(self).wf(),
            old(self)@.labels.len() < u32::MAX,
            old(self).nodes@.dom().contains(id) ==> old(self)@.keys.len()
                + old(self).nodes@[id].props.entries@.len() <= u32::MAX,
        ensures
            final(self).wf(),
            r is Err ==> *final(self) == *old(self),
            r == Err::<(), Error>(Error::NodeNotFound(id)) <==> !old(self)@.nodes.dom().contains(
                id,
            ),
            old(self)@.nodes.dom().contains(id) ==> (r is Err <==> !old(self)@.carries(id, label@)
                && old(self)@.refuses_label(label@, id, old(self)@.nodes[id].props)),
            r matches Err(e) ==> !old(self)@.nodes.dom().contains(id)
                || old(self)@.explains_label(e, label@, id, old(self)@.nodes[id].props),
            r is Ok && old(self)@.carries(id, label@) ==> final(self)@ == old(self)@,
            r is Ok && !old(self)@.carries(id, label@) ==> old(self)@.with_label(
                id,
                label@,
                final(self)@,
            ),
    {
        let ghost before = *self;
        match self.nodes.get(id) {
            None => {
                return Err(Error::NodeNotFound(id));
            },
            Some(record) => {
                if let Some(l) = self.labels.scopes.number(label) {
                    if has_label(&record.labels, l) {
                        return Ok(());
                    }
                    proof {
                        self.lemma_recorded();
                    }
                    match self.labels.breach(
                        &self.nodes,
                        &self.prop_keys,
                        l,
                        id,
                        &record.props,
                        Ghost(label_holding(self@.nodes)),
                    ) {
                        Some(e) => {
                            proof {
                                lemma_breach_explains(
                                    self.labels,
                                    label_holding(self@.nodes),
                                    self@.keys,
                                    l,
                                    label@,
                                    id,
                                    record.props@,
                                    e,
                                );
                            }
                            return Err(e);
                        },
                        None => {
                            proof {
                                lemma_no_breach_of(
                                    self.labels,
                                    label_holding(self@.nodes),
                                    self@.keys,
                                    l,
                                    id,
                                    record.props@,
                                );
                            }
                        },
                    }
                }
            },
        }
        let ghost h0 = label_holding(before@.nodes);
        let ghost first = self.prop_keys@;
        let l: LabelId = self.labels.scopes.number_or_add(label);
        proof {
            lemma_with_name(before@.labels, label@, label@);
            assert(self.labels == Catalog { scopes: self.labels.scopes, ..before.labels });
            self.labels.lemma_more_scopes(before.labels, h0, first);
            assert(marks(self.labels) =~= marks(before.labels));
            // A number that is new has no members.
            if !before@.labels.contains(label@) {
                assert(l >= before@.labels.len());
                assert(!h0.dom().contains((l, id)));
            }
        }
        let taken: Option<NodeRecord> = self.nodes.take(id);
        if let Some(record) = taken {
            let mut list: Vec<LabelId> = record.labels;
            let ghost had = list@;
            proof {
                assert(!had.contains(l)) by {
                    if had.contains(l) {
                        assert(h0.dom().contains((l, id)));
                    }
                }
            }
            let ghost mid = self.labels;
            self.labels.enroll(&mut self.prop_keys, l, id, &record.props, Ghost(h0));
            list.push(l);
            let ghost node = Node { labels: list@, props: record.props@ };
            self.nodes.put(id, NodeRecord { labels: list, props: record.props });
            proof {
                assert(marks(self.labels) =~= marks(mid));
                assert(self@.nodes =~= before@.nodes.insert(id, node));
                assert(self@.edges =~= before@.edges);
                assert forall|x: u32| #[trigger] node.labels.contains(x) <==> had.contains(x) || x
                    == l by {
                    if had.contains(x) {
                        let j = had.index_of(x);
                        assert(node.labels[j] == x);
                    }
                    assert(node.labels[had.len() as int] == l);
                }
                assert(label_holding(self@.nodes) =~= h0.insert((l, id), node.props));
                self.types.lemma_more_names(type_holding(self@.edges), first, self.prop_keys@);
                lemma_same_ends(before, *self);
            }
        }
        Ok(())
    }

    /// Takes a label off a node. Where there is no such node or label, or the
    /// node does not carry it, nothing changes.
    pub fn remove_label_impl(&mut self, id: NodeId, label: &str)
        requires
            old(self).wf(),
        ensures
            final(self).wf(),
            final(self)@ == (if old(self)@.carries(id, label@) {
                old(self)@.without_label(id, number_of_name(old(self)@.labels, label@)->0)
            } else {
                old(self)@
            }),
    {
        let ghost before = *self;
        let l: LabelId = match self.labels.scopes.number(label) {
            Some(l) => l,
            None => {
                return;
            },
        };
        match self.nodes.get(id) {
            None => {
                return;
            },
            Some(record) => {
                if !has_label(&record.labels, l) {
                    return;
                }
            },
        }
        let ghost h0 = label_holding(before@.nodes);
        let taken: Option<NodeRecord> = self.nodes.take(id);
        if let Some(record) = taken {
            let mut list: Vec<LabelId> = record.labels;
            let ghost had = list@;
            assert(h0.dom().contains((l, id)));
            self.labels.dismiss(&self.prop_keys, l, id, &record.props, Ghost(h0));
            let at: usize = label_position(&list, l);
            list.remove(at);
            let ghost node = Node { labels: list@, props: record.props@ };
            self.nodes.put(id, NodeRecord { labels: list, props: record.props });
            proof {
                assert(marks(self.labels) =~= without_scope(before@.label_marks, l, id));
                assert(self@.nodes =~= before@.nodes.insert(id, node));
                assert(self@.edges =~= before@.edges);
                assert forall|x: u32| #[trigger] node.labels.contains(x) <==> had.contains(x) && x
                    != l by {
                    if had.contains(x) && x != l {
                        let j = had.index_of(x);
                        if j < at {
                            assert(node.labels[j] == x);
                        } else {
                            assert(node.labels[j - 1] == x);
                        }
                    }
                    if node.labels.contains(x) {
                        let j = node.labels.index_of(x);
                        let o = if j < at {
                            j
                        } else {
                            j + 1
                        };
                        assert(had[o] == x);
                    }
                }
                assert(label_holding(self@.nodes) =~= h0.remove((l, id)));
                lemma_same_ends(before, *self);
            }
        }
    }
}

/// The position of a label.
fn label_position(list: &Vec<LabelId>, l: LabelId) -> (r: usize)
    requires
        list@.contains(l),
        list@.no_duplicates(),
    ensures
        r < list@.len(),
        list@[r as int] == l,
        r == list@.index_of(l),
{
    let mut i: usize = 0;
    proof {
        let j = list@.index_of(l);
        assert(list@[j] == l);
    }
    while list[i] != l
        invariant
            list@.contains(l),
            i < list@.len(),
            forall|j: int| 0 <= j < i ==> list@[j] != l,
        decreases list@.len() - i,
    {
        proof {
            let j = list@.index_of(l);
            assert(list@[j] == l);
            assert(i < j < list.len());
        }
        i = i + 1;
    }
    i
}

/// Where no edge and no node id changes, the ends of the edges are still there.
proof fn lemma_same_ends(before: Store, now: Store)
    requires
        before.wf(),
        now.edges == before.edges,
        now.next_edge == before.next_edge,
        forall|x: NodeId|
            before.nodes@.dom().contains(x) ==> #[trigger] now.nodes@.dom().contains(x),
    ensures
        forall|x: EdgeId| #[trigger]
            now.edges@.dom().contains(x) ==> x < now.next_edge && now.edges@[x].props.wf()
                && now.nodes@.dom().contains(now.edges@[x].src) && now.nodes@.dom().contains(
                now.edges@[x].dst,
            ),
{
    assert forall|x: EdgeId| #[trigger] now.edges@.dom().contains(x) implies x < now.next_edge
        && now.edges@[x].props.wf() && now.nodes@.dom().contains(now.edges@[x].src)
        && now.nodes@.dom().contains(now.edges@[x].dst) by {
        assert(before.edges@.dom().contains(x));
    }
}

/// What a breach reports is what explains the refusal.
pub proof fn lemma_breach_explains(
    c: Catalog,
    h: Holding,
    keys: Seq<Seq<char>>,
    s: u32,
    scope: Seq<char>,
    id: u64,
    props: Map<Seq<char>, Val>,
    e: Error,
)
    requires
        c.scopes@[s as int] == scope,
        exists|i: int|
            {
                &&& 0 <= i < c.defs@.len()
                &&& #[trigger] c.broken_at(h, keys, s, id, props, i)
                &&& forall|j: int|
                    0 <= j < i ==> !#[trigger] c.broken_at(h, keys, s, id, props, j)
                &&& crate::catalog::reports(
                    e,
                    c.scopes@[s as int],
                    keys[c.defs@[i].prop as int],
                    c.defs@[i].flags,
                    props,
                )
            },
    ensures
        refused(h, keys, c.defs@, s, id, props),
        explains(h, keys, c.defs@, s, scope, id, props, e),
{
    let i = choose|i: int|
        {
            &&& 0 <= i < c.defs@.len()
            &&& #[trigger] c.broken_at(h, keys, s, id, props, i)
            &&& forall|j: int| 0 <= j < i ==> !#[trigger] c.broken_at(h, keys, s, id, props, j)
            &&& crate::catalog::reports(
                e,
                c.scopes@[s as int],
                keys[c.defs@[i].prop as int],
                c.defs@[i].flags,
                props,
            )
        };
    assert(breached(h, keys, c.defs@, s, id, props, i));
    assert forall|j: int| 0 <= j < i implies !#[trigger] breached(
        h,
        keys,
        c.defs@,
        s,
        id,
        props,
        j,
    ) by {
        assert(!c.broken_at(h, keys, s, id, props, j));
    }
}

/// Where no definition is broken, nothing refuses the member.
pub proof fn lemma_no_breach_of(
    c: Catalog,
    h: Holding,
    keys: Seq<Seq<char>>,
    s: u32,
    id: u64,
    props: Map<Seq<char>, Val>,
)
    requires
        forall|i: int|
            0 <= i < c.defs@.len() ==> !#[trigger] c.broken_at(h, keys, s, id, props, i),
    ensures
        !refused(h, keys, c.defs@, s, id, props),
{
    assert forall|i: int| !#[trigger] breached(h, keys, c.defs@, s, id, props, i) by {
        if 0 <= i < c.defs@.len() {
            assert(!c.broken_at(h, keys, s, id, props, i));
        }
    }
}

} // verus!
