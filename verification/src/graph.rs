//! A graph: its records, and the snapshot that the kernels read.

use vstd::prelude::*;

use crate::csr::{ascending, CsrSnapshot};
use crate::error::Error;
use crate::image::{images, lemma_store_lists, node_list, snapshot_of};
use crate::laws::lemma_store_sound;
use crate::schema::{EdgeId, NodeId};
use crate::store::{explains, names_of, refused, type_holding, Content, NodeRecord, Store};
use crate::store_edges::NeighborEntry;
use crate::tables::{number_of_name, Props};
use crate::text::{TextDef, TextIndexes};
use crate::traversal::STALE_POINT_EXPAND_MAX;

verus! {

/// Label scans that were answered since a write was last published.
pub struct LabelScans {
    /// The generation that the scans show.
    pub generation: u64,
    pub by_label: Vec<(String, Vec<NodeId>)>,
}

impl LabelScans {
    /// Every scan lists the nodes with its label.
    pub open spec fn show(&self, c: Content) -> bool {
        forall|i: int| 0 <= i < self.by_label@.len() ==> is_scan(c, #[trigger] self.by_label@[i])
    }
}

/// Whether a scan lists the nodes with its label, in ascending order.
pub open spec fn is_scan(c: Content, scan: (String, Vec<NodeId>)) -> bool {
    ascending(scan.1@) && forall|id: NodeId| #[trigger]
        scan.1@.contains(id) <==> c.carries(id, scan.0@)
}

/// A graph.
///
/// The snapshot is taken when a kernel needs it. It is current while no write
/// has been published since: the two generations then agree.
pub struct Graph {
    pub store: Store,
    /// How many writes have been published.
    pub write_gen: u64,
    /// The generation that the snapshot shows; none before the first.
    pub snapshot_gen: Option<u64>,
    pub snapshot: CsrSnapshot,
    /// How many threads a pass may be spread over.
    pub threads: usize,
    pub texts: TextIndexes,
    pub scans: LabelScans,
}

impl View for Graph {
    type V = Content;

    open spec fn view(&self) -> Content {
        self.store@
    }
}

impl Graph {
    /// Whether the snapshot is behind the writes.
    pub open spec fn stale(&self) -> bool {
        self.snapshot_gen != Some(self.write_gen)
    }

    pub open spec fn wf(&self) -> bool {
        &&& self.store.wf()
        &&& self.snapshot.wf()
        &&& self.texts.wf()
        &&& self.snapshot_gen matches Some(g) ==> g <= self.write_gen
        &&& !self.stale() ==> images(self.snapshot, self@)
        &&& self.scans.generation <= self.write_gen
        &&& self.scans.generation == self.write_gen ==> self.scans.show(self@)
    }

    /// Scans stay right while the nodes do and names of labels are only added.
    pub(crate) proof fn lemma_scans_kept(&self, before: Graph)
        requires
            before.wf(),
            self.scans == before.scans,
            self@.nodes == before@.nodes,
            before@.labels.is_prefix_of(self@.labels),
            self@.labels.no_duplicates(),
            self@.labels.len() <= u32::MAX,
        ensures
            before.scans.show(before@) ==> self.scans.show(self@),
    {
        lemma_store_sound(before.store);
        assert forall|id: NodeId, label: Seq<char>| #[trigger]
            self@.carries(id, label) == before@.carries(id, label) by {
            let (was, now) = (before@.labels, self@.labels);
            if was.contains(label) {
                let i = was.index_of(label);
                assert(now[i] == label);
                assert(now.contains(label));
                assert(now.index_of(label) == i);
            } else if now.contains(label) {
                let i = now.index_of(label);
                if i < was.len() {
                    assert(was[i] == label);
                }
            }
        }
        if before.scans.show(before@) {
            assert forall|i: int| 0 <= i < self.scans.by_label@.len() implies is_scan(
                self@,
                #[trigger] self.scans.by_label@[i],
            ) by {
                assert(is_scan(before@, before.scans.by_label@[i]));
            }
        }
    }

    /// The nodes can be numbered with 32 bits.
    pub open spec fn compressible(&self) -> bool {
        node_list(self@).len() < u32::MAX
    }

    /// Nothing but the snapshot differs, and it is current.
    pub open spec fn refreshed(&self, now: Graph) -> bool {
        &&& now.wf()
        &&& !now.stale()
        &&& now.store == self.store
        &&& now.write_gen == self.write_gen
        &&& self.keeps_rest(now)
    }

    /// The snapshot is the same, and shows the same generation.
    pub open spec fn keeps_snapshot(&self, now: Graph) -> bool {
        now.snapshot_gen == self.snapshot_gen && now.snapshot == self.snapshot
    }

    /// The scans and the settings are the same.
    pub open spec fn keeps_settings(&self, now: Graph) -> bool {
        now.scans == self.scans && now.threads == self.threads
    }

    /// The text indexes, the scans and the settings are the same.
    pub open spec fn keeps_rest(&self, now: Graph) -> bool {
        now.texts == self.texts && self.keeps_settings(now)
    }

    /// The graph of a store. Nothing is built yet.
    pub fn open(store: Store) -> (g: Graph)
        requires
            store.wf(),
        ensures
            g.wf(),
            g@ == store@,
            g.stale(),
            g.snapshot.n() == 0,
            g.write_gen == 0,
            g.snapshot_gen is None,
            g.threads == 0,
            g.texts@ == Seq::<TextDef>::empty(),
            g.scans.by_label@.len() == 0,
    {
        let ids: Vec<NodeId> = Vec::new();
        let snapshot: CsrSnapshot = CsrSnapshot::build(&ids, &Vec::new());
        let scans: LabelScans = LabelScans { generation: 0, by_label: Vec::new() };
        Graph {
            store,
            write_gen: 0,
            snapshot_gen: None,
            snapshot,
            threads: 0,
            texts: TextIndexes::new(),
            scans,
        }
    }

    /// Sets how many threads a pass may be spread over.
    pub fn set_thread_count(&mut self, n: usize)
        ensures
            *final(self) == (Graph { threads: n, ..*old(self) }),
    {
        self.threads = n;
    }

    /// Whether the snapshot is behind the writes.
    pub fn snapshot_is_stale(&self) -> (r: bool)
        ensures
            r == self.stale(),
    {
        match self.snapshot_gen {
            Some(g) => g != self.write_gen,
            None => true,
        }
    }

    /// Takes the snapshot anew.
    pub fn rebuild_csr(&mut self)
        requires
            old(self).wf(),
            old(self).compressible(),
        ensures
            old(self).refreshed(*final(self)),
    {
        proof {
            lemma_store_lists(self.store);
        }
        self.snapshot = snapshot_of(&self.store);
        self.snapshot_gen = Some(self.write_gen);
    }

    /// Brings the snapshot up to date.
    pub fn ensure_snapshot_fresh(&mut self)
        requires
            old(self).wf(),
            old(self).compressible(),
        ensures
            old(self).refreshed(*final(self)),
            !old(self).stale() ==> *final(self) == *old(self),
    {
        if self.snapshot_is_stale() {
            self.rebuild_csr();
        }
    }

    /// Whether expanding this many sources from the records is better than
    /// bringing the snapshot up to date.
    pub fn prefers_point_expansion(&self, sources: usize) -> (r: bool)
        ensures
            r == (self.stale() && sources <= 64),
    {
        self.snapshot_is_stale() && sources <= STALE_POINT_EXPAND_MAX
    }

    /// Adds a node with one label.
    /// The text indexes stay as they are: [`Graph::add_indexed_node`] keeps
    /// them in step.
    pub fn add_node(&mut self, label: &str, props: &Props) -> (r: Result<NodeId, Error>)
        requires
            old(self).wf(),
            props.wf(),
            old(self).write_gen < u64::MAX,
            old(self)@.next_node < u64::MAX,
            old(self)@.labels.len() < u32::MAX,
            old(self)@.keys.len() + props.entries@.len() <= u32::MAX,
        ensures
            final(self).wf(),
            old(self).keeps_rest(*final(self)),
            old(self).keeps_snapshot(*final(self)),
            r is Err <==> old(self)@.refuses_node(seq![label@], old(self)@.next_node, props@),
            r matches Err(e) ==> *final(self) == *old(self) && old(self)@.explains_node(
                e,
                seq![label@],
                old(self)@.next_node,
                props@,
            ),
            r matches Ok(id) ==> id == old(self)@.next_node && old(self)@.with_node(
                seq![label@],
                props@,
                final(self)@,
            ) && final(self).write_gen == old(self).write_gen + 1 && final(self).stale(),
    {
        let list: [&str; 1] = [label];
        proof {
            assert(names_of(list@) =~= seq![label@]);
        }
        self.add_node_multi(list.as_slice(), props)
    }

    /// Adds a node with these labels. Without labels it is an unlabeled node;
    /// a label that is given twice is carried once.
    /// The text indexes stay as they are: [`Graph::add_indexed_node`] keeps
    /// them in step.
    pub fn add_node_multi(&mut self, labels: &[&str], props: &Props) -> (r: Result<NodeId, Error>)
        requires
            old(self).wf(),
            props.wf(),
            old(self).write_gen < u64::MAX,
            old(self)@.next_node < u64::MAX,
            old(self)@.labels.len() + labels@.len() <= u32::MAX,
            old(self)@.keys.len() + props.entries@.len() <= u32::MAX,
        ensures
            final(self).wf(),
            old(self).keeps_rest(*final(self)),
            old(self).keeps_snapshot(*final(self)),
            r is Err <==> old(self)@.refuses_node(
                names_of(labels@),
                old(self)@.next_node,
                props@,
            ),
            r matches Err(e) ==> *final(self) == *old(self) && old(self)@.explains_node(
                e,
                names_of(labels@),
                old(self)@.next_node,
                props@,
            ),
            r matches Ok(id) ==> id == old(self)@.next_node && old(self)@.with_node(
                names_of(labels@),
                props@,
                final(self)@,
            ) && final(self).write_gen == old(self).write_gen + 1 && final(self).stale(),
    {
        let id: NodeId = match self.store.add_node_impl(labels, props) {
            Ok(id) => id,
            Err(e) => {
                return Err(e);
            },
        };
        self.write_gen = self.write_gen + 1;
        Ok(id)
    }

    /// Replaces the properties of a node.
    /// The text indexes stay as they are: [`Graph::update_indexed_node`] keeps
    /// them in step.
    pub fn update_node(&mut self, id: NodeId, props: &Props) -> (r: Result<(), Error>)
        requires
            old(self).wf(),
            props.wf(),
            old(self).write_gen < u64::MAX,
            old(self)@.keys.len() + props.entries@.len() <= u32::MAX,
        ensures
            final(self).wf(),
            old(self).keeps_rest(*final(self)),
            old(self).keeps_snapshot(*final(self)),
            r is Err ==> *final(self) == *old(self),
            r == Err::<(), Error>(Error::NodeNotFound(id)) <==> !old(self)@.nodes.dom().contains(
                id,
            ),
            old(self)@.nodes.dom().contains(id) ==> (r is Err <==> old(self)@.refuses_update(
                id,
                props@,
            )),
            r matches Err(e) ==> !old(self)@.nodes.dom().contains(id)
                || old(self)@.explains_update(e, id, props@),
            r is Ok ==> old(self)@.with_node_props(id, props@, final(self)@)
                && final(self).write_gen == old(self).write_gen + 1 && final(self).stale(),
    {
        match self.store.update_node_impl(id, props) {
            Ok(_) => {
                self.write_gen = self.write_gen + 1;
                Ok(())
            },
            Err(e) => Err(e),
        }
    }

    /// Adds a label to a node.
    /// The text indexes stay as they are: [`Graph::add_indexed_label`] keeps
    /// them in step.
    pub fn add_label(&mut self, id: NodeId, label: &str) -> (r: Result<(), Error>)
        requires
            old(self).wf(),
            old(self).write_gen < u64::MAX,
            old(self)@.labels.len() < u32::MAX,
            old(self).store.nodes@.dom().contains(id) ==> old(self)@.keys.len()
                + old(self).store.nodes@[id].props.entries@.len() <= u32::MAX,
        ensures
            final(self).wf(),
            old(self).keeps_rest(*final(self)),
            old(self).keeps_snapshot(*final(self)),
            r is Err ==> *final(self) == *old(self),
            r == Err::<(), Error>(Error::NodeNotFound(id)) <==> !old(self)@.nodes.dom().contains(
                id,
            ),
            old(self)@.nodes.dom().contains(id) ==> (r is Err <==> !old(self)@.carries(id, label@)
                && old(self)@.refuses_label(label@, id, old(self)@.nodes[id].props)),
            r matches Err(e) ==> !old(self)@.nodes.dom().contains(id)
                || old(self)@.explains_label(e, label@, id, old(self)@.nodes[id].props),
            r is Ok && old(self)@.carries(id, label@) ==> final(self)@ == old(self)@,
            r is Ok && !old(self)@.carries(id, label@) ==> old(self)@.with_label(
                id,
                label@,
                final(self)@,
            ),
            r is Ok ==> final(self).write_gen == old(self).write_gen + 1 && final(self).stale(),
    {
        match self.store.add_label_impl(id, label) {
            Ok(_) => {
                self.write_gen = self.write_gen + 1;
                Ok(())
            },
            Err(e) => Err(e),
        }
    }

    /// Takes a label off a node.
    /// The text indexes stay as they are: [`Graph::remove_indexed_label`] keeps
    /// them in step.
    pub fn remove_label(&mut self, id: NodeId, label: &str)
        requires
            old(self).wf(),
            old(self).write_gen < u64::MAX,
        ensures
            final(self).wf(),
            old(self).keeps_rest(*final(self)),
            old(self).keeps_snapshot(*final(self)),
            final(self)@ == (if old(self)@.carries(id, label@) {
                old(self)@.without_label(id, number_of_name(old(self)@.labels, label@)->0)
            } else {
                old(self)@
            }),
            final(self).write_gen == old(self).write_gen + 1,
            final(self).stale(),
    {
        self.store.remove_label_impl(id, label);
        self.write_gen = self.write_gen + 1;
    }

    /// Deletes a node with the edges at it.
    /// The text indexes stay as they are: [`Graph::delete_indexed_node`] keeps
    /// them in step.
    pub fn delete_node(&mut self, id: NodeId)
        requires
            old(self).wf(),
            old(self).write_gen < u64::MAX,
        ensures
            final(self).wf(),
            old(self).keeps_rest(*final(self)),
            old(self).keeps_snapshot(*final(self)),
            final(self)@ == (if old(self)@.nodes.dom().contains(id) {
                old(self)@.without_node(id)
            } else {
                old(self)@
            }),
            final(self).write_gen == old(self).write_gen + 1,
            final(self).stale(),
    {
        self.store.delete_node_impl(id);
        self.write_gen = self.write_gen + 1;
    }

    /// Adds an edge.
    pub fn add_edge(&mut self, src: NodeId, dst: NodeId, etype: &str, props: &Props) -> (r: Result<
        EdgeId,
        Error,
    >)
        requires
            old(self).wf(),
            props.wf(),
            old(self).write_gen < u64::MAX,
            old(self)@.next_edge < u64::MAX,
            old(self)@.types.len() < u32::MAX,
        ensures
            final(self).wf(),
            old(self).keeps_rest(*final(self)),
            old(self).keeps_snapshot(*final(self)),
            r is Err ==> *final(self) == *old(self),
            match r {
                Ok(id) => {
                    &&& old(self)@.nodes.dom().contains(src)
                    &&& old(self)@.nodes.dom().contains(dst)
                    &&& !old(self)@.refuses_edge(etype@, old(self)@.next_edge, props@)
                    &&& id == old(self)@.next_edge
                    &&& final(self)@ == old(self)@.with_edge(src, dst, etype@, props@)
                    &&& final(self).write_gen == old(self).write_gen + 1
                    &&& final(self).stale()
                },
                Err(Error::NodeNotFound(id)) => if !old(self)@.nodes.dom().contains(src) {
                    id == src
                } else {
                    !old(self)@.nodes.dom().contains(dst) && id == dst
                },
                Err(e) => {
                    &&& old(self)@.nodes.dom().contains(src)
                    &&& old(self)@.nodes.dom().contains(dst)
                    &&& old(self)@.refuses_edge(etype@, old(self)@.next_edge, props@)
                    &&& old(self)@.explains_edge(e, etype@, old(self)@.next_edge, props@)
                },
            },
    {
        let id: EdgeId = match self.store.add_edge_impl(src, dst, etype, props) {
            Ok(id) => id,
            Err(e) => {
                return Err(e);
            },
        };
        self.write_gen = self.write_gen + 1;
        Ok(id)
    }

    /// Replaces the properties of an edge.
    pub fn update_edge(&mut self, id: EdgeId, props: &Props) -> (r: Result<(), Error>)
        requires
            old(self).wf(),
            props.wf(),
            old(self).write_gen < u64::MAX,
        ensures
            final(self).wf(),
            old(self).keeps_rest(*final(self)),
            old(self).keeps_snapshot(*final(self)),
            r is Err ==> *final(self) == *old(self),
            r == Err::<(), Error>(Error::EdgeNotFound(id)) <==> !old(self)@.edges.dom().contains(
                id,
            ),
            old(self)@.edges.dom().contains(id) ==> (r is Err <==> refused(
                type_holding(old(self)@.edges),
                old(self)@.keys,
                old(self)@.type_defs,
                old(self)@.edges[id].ty,
                id,
                props@,
            )),
            r matches Err(e) ==> !old(self)@.edges.dom().contains(id) || explains(
                type_holding(old(self)@.edges),
                old(self)@.keys,
                old(self)@.type_defs,
                old(self)@.edges[id].ty,
                old(self)@.types[old(self)@.edges[id].ty as int],
                id,
                props@,
                e,
            ),
            r is Ok ==> final(self)@ == old(self)@.with_edge_props(id, props@)
                && final(self).write_gen == old(self).write_gen + 1 && final(self).stale(),
    {
        match self.store.update_edge_impl(id, props) {
            Ok(_) => {
                self.write_gen = self.write_gen + 1;
                Ok(())
            },
            Err(e) => Err(e),
        }
    }

    /// Deletes an edge.
    pub fn delete_edge(&mut self, id: EdgeId)
        requires
            old(self).wf(),
            old(self).write_gen < u64::MAX,
        ensures
            final(self).wf(),
            old(self).keeps_rest(*final(self)),
            old(self).keeps_snapshot(*final(self)),
            final(self)@ == old(self)@.without_edge(id),
            final(self).write_gen == old(self).write_gen + 1,
            final(self).stale(),
    {
        self.store.delete_edge_impl(id);
        self.write_gen = self.write_gen + 1;
    }

    /// Opens a transaction: a copy of the records, on which writes are staged.
    pub fn begin(&self) -> (txn: WriteTxn)
        requires
            self.wf(),
        ensures
            txn.wf(),
            txn@ == self@,
            txn.base@ == self@,
            txn.mutations == 0,
    {
        WriteTxn {
            store: self.store.copy(),
            mutations: 0,
            touched: Vec::new(),
            base: Ghost(self@),
        }
    }

    /// Commits the writes that were staged in a transaction on this graph, and
    /// publishes them. Where none was, nothing is published.
    /// The text indexes stay as they are: [`Graph::commit_indexed`] keeps
    /// them in step.
    pub fn commit(&mut self, txn: WriteTxn)
        requires
            old(self).wf(),
            txn.wf(),
            txn.base@ == old(self)@,
            old(self).write_gen + txn.mutations <= u64::MAX,
        ensures
            final(self).wf(),
            old(self).keeps_rest(*final(self)),
            old(self).keeps_snapshot(*final(self)),
            final(self)@ == txn@,
            final(self).write_gen == old(self).write_gen + txn.mutations,
            txn.mutations > 0 ==> final(self).stale(),
            txn.mutations == 0 ==> final(self).stale() == old(self).stale(),
    {
        self.write_gen = self.write_gen + txn.mutations;
        self.store = txn.store;
    }

    /// Runs a transaction: what it staged is committed where it succeeds, and nothing
    /// of it where it does not.
    /// The text indexes stay as they are: [`Graph::update_indexed`] keeps
    /// them in step.
    pub fn update<T, F: FnOnce(&mut WriteTxn) -> Result<T, Error>>(&mut self, f: F) -> (r: Result<
        T,
        Error,
    >)
        requires
            old(self).wf(),
            forall|txn: &mut WriteTxn|
                #![trigger f.requires((txn,))]
                txn.opened(old(self)@) ==> f.requires((txn,)),
            forall|txn: &mut WriteTxn, out: Result<T, Error>|
                #![trigger f.ensures((txn,), out)]
                f.ensures((txn,), out) && txn.opened(old(self)@) ==> final(txn).wf()
                    && final(txn).base@ == old(self)@ && old(self).write_gen
                    + final(txn).mutations <= u64::MAX,
        ensures
            final(self).wf(),
            old(self).keeps_rest(*final(self)),
            old(self).keeps_snapshot(*final(self)),
            r is Err ==> *final(self) == *old(self),
            exists|txn: &mut WriteTxn|
                {
                    &&& #[trigger] f.ensures((txn,), r)
                    &&& txn.opened(old(self)@)
                    &&& r is Ok ==> final(self)@ == final(txn)@
                    &&& r is Ok ==> final(self).write_gen == old(self).write_gen
                        + final(txn).mutations
                    &&& r is Ok && final(txn).mutations > 0 ==> final(self).stale()
                    &&& r is Ok && final(txn).mutations == 0 ==> final(self).stale() == old(
                        self,
                    ).stale()
                },
    {
        let mut txn: WriteTxn = self.begin();
        let r: Result<T, Error> = f(&mut txn);
        match r {
            Ok(_) => {
                self.commit(txn);
                r
            },
            Err(_) => r,
        }
    }
}

/// Writes that are staged together.
pub struct WriteTxn {
    pub store: Store,
    /// How many writes are staged.
    pub mutations: u64,
    /// The nodes that writes are staged on.
    pub touched: Vec<NodeId>,
    /// What the graph held when the transaction was opened.
    pub base: Ghost<Content>,
}

/// Whether a node is the same in two contents, or in neither.
pub open spec fn same_node(a: Content, b: Content, id: NodeId) -> bool {
    &&& a.nodes.dom().contains(id) <==> b.nodes.dom().contains(id)
    &&& a.nodes.dom().contains(id) ==> a.nodes[id] == b.nodes[id]
}

impl View for WriteTxn {
    type V = Content;

    open spec fn view(&self) -> Content {
        self.store@
    }
}

impl WriteTxn {
    /// Nothing is staged yet, on this content.
    pub open spec fn opened(&self, c: Content) -> bool {
        self.wf() && self@ == c && self.base@ == c && self.mutations == 0
    }

    pub open spec fn wf(&self) -> bool {
        &&& self.store.wf()
        &&& self.mutations == 0 ==> self@ == self.base@
        &&& self.touched@.no_duplicates()
        &&& self.base@.keys.is_prefix_of(self@.keys)
        &&& forall|id: NodeId| !self.touched@.contains(id) ==> #[trigger] self.untouched(id)
    }

    /// The node is as it was when the transaction was opened.
    pub open spec fn untouched(&self, id: NodeId) -> bool {
        same_node(self.base@, self@, id)
    }

    /// Notes that a write is staged on a node.
    fn touch(&mut self, id: NodeId)
        requires
            old(self).touched@.no_duplicates(),
        ensures
            *final(self) == (WriteTxn { touched: final(self).touched, ..*old(self) }),
            final(self).touched@.no_duplicates(),
            final(self).touched@.contains(id),
            old(self).touched@.is_prefix_of(final(self).touched@),
    {
        let ghost before = *self;
        let mut i: usize = 0;
        while i < self.touched.len()
            invariant
                *self == before,
                before.touched@.no_duplicates(),
                i <= self.touched@.len(),
                forall|j: int| 0 <= j < i ==> self.touched@[j] != id,
            decreases self.touched@.len() - i,
        {
            if self.touched[i] == id {
                return;
            }
            i = i + 1;
        }
        self.touched.push(id);
        assert(self.touched@[before.touched@.len() as int] == id);
    }

    /// Writes on one node that is noted keep the others as they were.
    proof fn lemma_touched(&self, before: WriteTxn, id: NodeId)
        requires
            before.wf(),
            self.base == before.base,
            before@.keys.is_prefix_of(self@.keys),
            self.touched@.contains(id),
            before.touched@.is_prefix_of(self.touched@),
            forall|x: NodeId| x != id ==> #[trigger] same_node(before@, self@, x),
        ensures
            self.base@.keys.is_prefix_of(self@.keys),
            forall|x: NodeId| !self.touched@.contains(x) ==> #[trigger] self.untouched(x),
    {
        assert forall|x: NodeId| !self.touched@.contains(x) implies #[trigger] self.untouched(x) by {
            assert(!before.touched@.contains(x)) by {
                if before.touched@.contains(x) {
                    let k = before.touched@.index_of(x);
                    assert(self.touched@[k] == x);
                }
            }
            assert(before.untouched(x));
            assert(same_node(before@, self@, x));
        }
        assert forall|i: int| 0 <= i < self.base@.keys.len() implies self.base@.keys[i]
            == self@.keys[i] by {
            assert(before@.keys[i] == self@.keys[i]);
        }
    }

    /// Writes on edges keep the nodes as they were.
    proof fn lemma_nodes_kept(&self, before: WriteTxn)
        requires
            before.wf(),
            self.base == before.base,
            self.touched == before.touched,
            before@.keys == self@.keys,
            before@.nodes == self@.nodes,
        ensures
            self.base@.keys.is_prefix_of(self@.keys),
            forall|x: NodeId| !self.touched@.contains(x) ==> #[trigger] self.untouched(x),
    {
        assert forall|x: NodeId| !self.touched@.contains(x) implies #[trigger] self.untouched(x) by {
            assert(before.untouched(x));
        }
    }

    /// Stages a node with one label.
    pub fn add_node(&mut self, label: &str, props: &Props) -> (r: Result<NodeId, Error>)
        requires
            old(self).wf(),
            props.wf(),
            old(self).mutations < u64::MAX,
            old(self)@.next_node < u64::MAX,
            old(self)@.labels.len() < u32::MAX,
            old(self)@.keys.len() + props.entries@.len() <= u32::MAX,
        ensures
            final(self).wf(),
            final(self).base == old(self).base,
            r is Err <==> old(self)@.refuses_node(seq![label@], old(self)@.next_node, props@),
            r matches Err(e) ==> final(self)@ == old(self)@ && final(self).mutations == old(
                self,
            ).mutations && old(self)@.explains_node(
                e,
                seq![label@],
                old(self)@.next_node,
                props@,
            ),
            r matches Ok(id) ==> id == old(self)@.next_node && old(self)@.with_node(
                seq![label@],
                props@,
                final(self)@,
            ) && final(self).mutations == old(self).mutations + 1,
    {
        let list: [&str; 1] = [label];
        proof {
            assert(names_of(list@) =~= seq![label@]);
        }
        self.add_node_multi(list.as_slice(), props)
    }

    /// Stages a node with these labels.
    pub fn add_node_multi(&mut self, labels: &[&str], props: &Props) -> (r: Result<NodeId, Error>)
        requires
            old(self).wf(),
            props.wf(),
            old(self).mutations < u64::MAX,
            old(self)@.next_node < u64::MAX,
            old(self)@.labels.len() + labels@.len() <= u32::MAX,
            old(self)@.keys.len() + props.entries@.len() <= u32::MAX,
        ensures
            final(self).wf(),
            final(self).base == old(self).base,
            r is Err <==> old(self)@.refuses_node(
                names_of(labels@),
                old(self)@.next_node,
                props@,
            ),
            r matches Err(e) ==> final(self)@ == old(self)@ && final(self).mutations == old(
                self,
            ).mutations && old(self)@.explains_node(
                e,
                names_of(labels@),
                old(self)@.next_node,
                props@,
            ),
            r matches Ok(id) ==> id == old(self)@.next_node && old(self)@.with_node(
                names_of(labels@),
                props@,
                final(self)@,
            ) && final(self).mutations == old(self).mutations + 1,
    {
        let ghost before = *self;
        match self.store.add_node_impl(labels, props) {
            Ok(id) => {
                self.mutations = self.mutations + 1;
                self.touch(id);
                proof {
                    assert forall|x: NodeId| x != id implies #[trigger] same_node(
                        before@,
                        self@,
                        x,
                    ) by {}
                    self.lemma_touched(before, id);
                }
                Ok(id)
            },
            Err(e) => Err(e),
        }
    }

    /// Stages an edge.
    pub fn add_edge(&mut self, src: NodeId, dst: NodeId, etype: &str, props: &Props) -> (r: Result<
        EdgeId,
        Error,
    >)
        requires
            old(self).wf(),
            props.wf(),
            old(self).mutations < u64::MAX,
            old(self)@.next_edge < u64::MAX,
            old(self)@.types.len() < u32::MAX,
        ensures
            final(self).wf(),
            final(self).base == old(self).base,
            r is Err ==> final(self)@ == old(self)@ && final(self).mutations == old(
                self,
            ).mutations,
            match r {
                Ok(id) => {
                    &&& old(self)@.nodes.dom().contains(src)
                    &&& old(self)@.nodes.dom().contains(dst)
                    &&& !old(self)@.refuses_edge(etype@, old(self)@.next_edge, props@)
                    &&& id == old(self)@.next_edge
                    &&& final(self)@ == old(self)@.with_edge(src, dst, etype@, props@)
                    &&& final(self).mutations == old(self).mutations + 1
                },
                Err(Error::NodeNotFound(id)) => if !old(self)@.nodes.dom().contains(src) {
                    id == src
                } else {
                    !old(self)@.nodes.dom().contains(dst) && id == dst
                },
                Err(e) => {
                    &&& old(self)@.nodes.dom().contains(src)
                    &&& old(self)@.nodes.dom().contains(dst)
                    &&& old(self)@.refuses_edge(etype@, old(self)@.next_edge, props@)
                    &&& old(self)@.explains_edge(e, etype@, old(self)@.next_edge, props@)
                },
            },
    {
        let ghost before = *self;
        match self.store.add_edge_impl(src, dst, etype, props) {
            Ok(id) => {
                self.mutations = self.mutations + 1;
                proof {
                    self.lemma_nodes_kept(before);
                }
                Ok(id)
            },
            Err(e) => Err(e),
        }
    }

    /// Stages other properties for a node.
    pub fn update_node(&mut self, id: NodeId, props: &Props) -> (r: Result<(), Error>)
        requires
            old(self).wf(),
            props.wf(),
            old(self).mutations < u64::MAX,
            old(self)@.keys.len() + props.entries@.len() <= u32::MAX,
        ensures
            final(self).wf(),
            final(self).base == old(self).base,
            r is Err ==> final(self)@ == old(self)@ && final(self).mutations == old(
                self,
            ).mutations,
            r == Err::<(), Error>(Error::NodeNotFound(id)) <==> !old(self)@.nodes.dom().contains(
                id,
            ),
            old(self)@.nodes.dom().contains(id) ==> (r is Err <==> old(self)@.refuses_update(
                id,
                props@,
            )),
            r matches Err(e) ==> !old(self)@.nodes.dom().contains(id)
                || old(self)@.explains_update(e, id, props@),
            r is Ok ==> old(self)@.with_node_props(id, props@, final(self)@)
                && final(self).mutations == old(self).mutations + 1,
    {
        let ghost before = *self;
        match self.store.update_node_impl(id, props) {
            Ok(_) => {
                self.mutations = self.mutations + 1;
                self.touch(id);
                proof {
                    assert forall|x: NodeId| x != id implies #[trigger] same_node(
                        before@,
                        self@,
                        x,
                    ) by {}
                    self.lemma_touched(before, id);
                }
                Ok(())
            },
            Err(e) => Err(e),
        }
    }

    /// Stages new properties of an edge.
    pub fn update_edge(&mut self, id: EdgeId, props: &Props) -> (r: Result<(), Error>)
        requires
            old(self).wf(),
            props.wf(),
            old(self).mutations < u64::MAX,
        ensures
            final(self).wf(),
            final(self).base == old(self).base,
            r is Err ==> final(self)@ == old(self)@ && final(self).mutations == old(
                self,
            ).mutations,
            r == Err::<(), Error>(Error::EdgeNotFound(id)) <==> !old(self)@.edges.dom().contains(
                id,
            ),
            old(self)@.edges.dom().contains(id) ==> (r is Err <==> refused(
                type_holding(old(self)@.edges),
                old(self)@.keys,
                old(self)@.type_defs,
                old(self)@.edges[id].ty,
                id,
                props@,
            )),
            r matches Err(e) ==> !old(self)@.edges.dom().contains(id) || explains(
                type_holding(old(self)@.edges),
                old(self)@.keys,
                old(self)@.type_defs,
                old(self)@.edges[id].ty,
                old(self)@.types[old(self)@.edges[id].ty as int],
                id,
                props@,
                e,
            ),
            r is Ok ==> final(self)@ == old(self)@.with_edge_props(id, props@)
                && final(self).mutations == old(self).mutations + 1,
    {
        let ghost before = *self;
        match self.store.update_edge_impl(id, props) {
            Ok(_) => {
                self.mutations = self.mutations + 1;
                proof {
                    self.lemma_nodes_kept(before);
                }
                Ok(())
            },
            Err(e) => Err(e),
        }
    }

    /// Stages one more label on a node.
    pub fn add_label(&mut self, id: NodeId, label: &str) -> (r: Result<(), Error>)
        requires
            old(self).wf(),
            old(self).mutations < u64::MAX,
            old(self)@.labels.len() < u32::MAX,
            old(self).store.nodes@.dom().contains(id) ==> old(self)@.keys.len()
                + old(self).store.nodes@[id].props.entries@.len() <= u32::MAX,
        ensures
            final(self).wf(),
            final(self).base == old(self).base,
            r is Err ==> final(self)@ == old(self)@ && final(self).mutations == old(
                self,
            ).mutations,
            r == Err::<(), Error>(Error::NodeNotFound(id)) <==> !old(self)@.nodes.dom().contains(
                id,
            ),
            old(self)@.nodes.dom().contains(id) ==> (r is Err <==> !old(self)@.carries(id, label@)
                && old(self)@.refuses_label(label@, id, old(self)@.nodes[id].props)),
            r matches Err(e) ==> !old(self)@.nodes.dom().contains(id)
                || old(self)@.explains_label(e, label@, id, old(self)@.nodes[id].props),
            r is Ok && old(self)@.carries(id, label@) ==> final(self)@ == old(self)@,
            r is Ok && !old(self)@.carries(id, label@) ==> old(self)@.with_label(
                id,
                label@,
                final(self)@,
            ),
            r is Ok ==> final(self).mutations == old(self).mutations + 1,
    {
        let ghost before = *self;
        match self.store.add_label_impl(id, label) {
            Ok(_) => {
                self.mutations = self.mutations + 1;
                self.touch(id);
                proof {
                    assert forall|x: NodeId| x != id implies #[trigger] same_node(
                        before@,
                        self@,
                        x,
                    ) by {}
                    self.lemma_touched(before, id);
                }
                Ok(())
            },
            Err(e) => Err(e),
        }
    }

    /// Stages one label less on a node.
    pub fn remove_label(&mut self, id: NodeId, label: &str)
        requires
            old(self).wf(),
            old(self).mutations < u64::MAX,
        ensures
            final(self).wf(),
            final(self).base == old(self).base,
            final(self)@ == (if old(self)@.carries(id, label@) {
                old(self)@.without_label(id, number_of_name(old(self)@.labels, label@)->0)
            } else {
                old(self)@
            }),
            final(self).mutations == old(self).mutations + 1,
    {
        let ghost before = *self;
        self.store.remove_label_impl(id, label);
        self.mutations = self.mutations + 1;
        self.touch(id);
        proof {
            assert forall|x: NodeId| x != id implies #[trigger] same_node(before@, self@, x) by {}
            self.lemma_touched(before, id);
        }
    }

    /// Stages the deletion of a node with the edges at it.
    pub fn delete_node(&mut self, id: NodeId)
        requires
            old(self).wf(),
            old(self).mutations < u64::MAX,
        ensures
            final(self).wf(),
            final(self).base == old(self).base,
            final(self)@ == (if old(self)@.nodes.dom().contains(id) {
                old(self)@.without_node(id)
            } else {
                old(self)@
            }),
            final(self).mutations == old(self).mutations + 1,
    {
        let ghost before = *self;
        self.store.delete_node_impl(id);
        self.mutations = self.mutations + 1;
        self.touch(id);
        proof {
            assert forall|x: NodeId| x != id implies #[trigger] same_node(before@, self@, x) by {}
            self.lemma_touched(before, id);
        }
    }

    /// Stages the deletion of an edge.
    pub fn delete_edge(&mut self, id: EdgeId)
        requires
            old(self).wf(),
            old(self).mutations < u64::MAX,
        ensures
            final(self).wf(),
            final(self).base == old(self).base,
            final(self)@ == old(self)@.without_edge(id),
            final(self).mutations == old(self).mutations + 1,
    {
        let ghost before = *self;
        self.store.delete_edge_impl(id);
        self.mutations = self.mutations + 1;
        proof {
            self.lemma_nodes_kept(before);
        }
    }

    /// The edges that leave a node, staged ones too.
    pub fn out_neighbors(&self, node: NodeId) -> (out: Vec<NeighborEntry>)
        requires
            self.wf(),
        ensures
            self@.lists_neighbors(node, true, out@),
    {
        self.store.adj_entries_impl(node, true)
    }

    /// The record of a node, a staged one too.
    pub fn get_node(&self, id: NodeId) -> (r: Option<&NodeRecord>)
        requires
            self.wf(),
        ensures
            r is Some <==> self@.nodes.dom().contains(id),
            r matches Some(n) ==> n@ == self@.nodes[id] && n.props.wf(),
    {
        self.store.get_node_impl(id)
    }
}

/// The environment whose write transaction is open on this thread; zero where
/// none is.
pub struct OpenWrite {
    pub env: usize,
}

/// What was open before a write transaction was opened.
pub struct WriteTxnGuard {
    pub previous: usize,
}

impl WriteTxnGuard {
    /// Notes that a write transaction is open on an environment.
    pub fn enter(open: &mut OpenWrite, env_id: usize) -> (guard: WriteTxnGuard)
        ensures
            final(open).env == env_id,
            guard.previous == old(open).env,
    {
        let previous: usize = open.env;
        open.env = env_id;
        WriteTxnGuard { previous }
    }

    /// Restores what was open before.
    pub fn leave(self, open: &mut OpenWrite)
        ensures
            final(open).env == self.previous,
    {
        open.env = self.previous;
    }
}

/// Whether a write transaction is open on an environment.
pub fn in_write_txn(open: &OpenWrite, env_id: usize) -> (r: bool)
    ensures
        r == (open.env == env_id),
{
    open.env == env_id
}

} // verus!
