//! Full-text indexes over node properties: which node has which term how often.

use vstd::prelude::*;
use vstd::utf8::encode_utf8;

use crate::csr::ascending;
use crate::keys::{
    be_bytes, build_pair_name, bytes_less, bytes_lt, fts_posting_val, fts_postings_key,
    lemma_be_len, lemma_be_order, lemma_byte_powers, lemma_bytes_lt_prefix, lemma_bytes_lt_suffix,
    lemma_posting_val_injective, pair_name, parse_fts_posting_val, posting_key, posting_val,
    push_all,
};
use crate::schema::{LabelId, NodeId, PropKeyId};
use crate::sums::bit;
use crate::tables::{begins, KeySet, Names, Props, Table};
use crate::value::{PropValue, Val};

verus! {

/// The terms of a document with their frequencies.
pub type Terms = Seq<(Seq<char>, u32)>;

/// How many terms a document has, repetitions counted.
pub open spec fn doc_len(terms: Terms) -> nat
    decreases terms.len(),
{
    if terms.len() == 0 {
        0
    } else {
        doc_len(terms.drop_last()) + terms.last().1 as nat
    }
}

/// The terms of a list.
pub open spec fn terms_of(list: Seq<(String, u32)>) -> Terms {
    list.map_values(|t: (String, u32)| (t.0@, t.1))
}

/// The key of a posting: a term under a label and property, a node and a frequency.
pub open spec fn entry_key(
    label: LabelId,
    prop: PropKeyId,
    term: Seq<char>,
    node: NodeId,
    frequency: u32,
) -> Seq<u8> {
    posting_key(label, prop, encode_utf8(term)) + posting_val(node, frequency)
}

pub open spec fn is_posting(label: LabelId, prop: PropKeyId, key: Seq<u8>) -> bool {
    exists|term: Seq<char>, node: NodeId, f: u32|
        key == #[trigger] entry_key(label, prop, term, node, f)
}

/// The text index of one property under one label.
pub struct TextIndex {
    pub label: LabelId,
    pub prop: PropKeyId,
    /// The language that texts are split into terms by.
    pub language: u8,
    /// The length of each document.
    pub docs: Table<u32>,
    /// The postings, by term.
    pub postings: KeySet,
    /// The documents.
    pub content: Ghost<Map<NodeId, Terms>>,
}

proof fn lemma_entry_key(
    label: LabelId,
    prop: PropKeyId,
    s: Seq<char>,
    a: NodeId,
    f: u32,
    t: Seq<char>,
    b: NodeId,
    g: u32,
)
    ensures
        entry_key(label, prop, s, a, f) == entry_key(label, prop, t, b, g) <==> s == t && a == b
            && f == g,
        entry_key(label, prop, s, a, f).len() == posting_key(label, prop, encode_utf8(s)).len()
            + 12,
        begins(posting_key(label, prop, encode_utf8(s)), entry_key(label, prop, s, a, f)),
        begins(posting_key(label, prop, encode_utf8(s)), entry_key(label, prop, t, b, g))
            && entry_key(label, prop, t, b, g).len() == posting_key(
            label,
            prop,
            encode_utf8(s),
        ).len() + 12 ==> s == t,
        entry_key(label, prop, s, a, f).skip(
            posting_key(label, prop, encode_utf8(s)).len() as int,
        ) == posting_val(a, f),
{
    let (x, y) = (entry_key(label, prop, s, a, f), entry_key(label, prop, t, b, g));
    let (p, q) = (posting_key(label, prop, encode_utf8(s)), posting_key(label, prop, encode_utf8(t)));
    let head = be_bytes(label as nat, 4) + be_bytes(prop as nat, 4);
    lemma_be_len(label as nat, 4);
    lemma_be_len(prop as nat, 4);
    lemma_be_len(a as nat, 8);
    lemma_be_len(b as nat, 8);
    lemma_be_len(f as nat, 4);
    lemma_be_len(g as nat, 4);
    vstd::utf8::encode_utf8_decode_utf8(s);
    vstd::utf8::encode_utf8_decode_utf8(t);
    assert(x.take(p.len() as int) =~= p);
    assert(y.take(q.len() as int) =~= q);
    assert(x.skip(p.len() as int) =~= posting_val(a, f));
    assert(y.skip(q.len() as int) =~= posting_val(b, g));
    assert(p.skip(8) =~= encode_utf8(s));
    assert(q.skip(8) =~= encode_utf8(t));
    if begins(p, y) && y.len() == p.len() + 12 {
        assert(p.len() == q.len());
        assert(p == q);
    }
    if x == y {
        assert(p.len() == q.len());
        assert(p == q);
        lemma_posting_val_injective(a, f, b, g);
    }
}

/// Postings of one term sort by node and then by frequency.
proof fn lemma_posting_order(p: Seq<u8>, a: NodeId, f: u32, b: NodeId, g: u32)
    requires
        bytes_lt(p + posting_val(a, f), p + posting_val(b, g)),
    ensures
        a < b || (a == b && f < g),
{
    lemma_bytes_lt_prefix(p, posting_val(a, f), posting_val(b, g));
    lemma_byte_powers();
    lemma_be_order(a as nat, b as nat, 8);
    lemma_be_order(f as nat, g as nat, 4);
    lemma_be_len(a as nat, 8);
    lemma_be_len(b as nat, 8);
    let (x, y) = (be_bytes(a as nat, 8), be_bytes(b as nat, 8));
    let (s, t) = (be_bytes(f as nat, 4), be_bytes(g as nat, 4));
    if a == b {
        lemma_bytes_lt_prefix(x, s, t);
    } else {
        lemma_bytes_lt_suffix(x, y, s, t);
    }
}

fn build_key(label: LabelId, prop: PropKeyId, term: &str, node: NodeId, f: u32) -> (key: Vec<u8>)
    ensures
        key@ == entry_key(label, prop, term@, node, f),
{
    let mut key: Vec<u8> = fts_postings_key(label, prop, term);
    let val: [u8; 12] = fts_posting_val(node, f);
    push_all(&mut key, val.as_slice());
    key
}

/// The length of a document.
fn measure(terms: &Vec<(String, u32)>) -> (n: u32)
    requires
        doc_len(terms_of(terms@)) <= u32::MAX,
    ensures
        n == doc_len(terms_of(terms@)),
{
    let ghost all = terms_of(terms@);
    let mut n: u32 = 0;
    let mut i: usize = 0;
    assert(all.take(0) =~= Seq::<(Seq<char>, u32)>::empty());
    while i < terms.len()
        invariant
            all == terms_of(terms@),
            doc_len(all) <= u32::MAX,
            i <= terms@.len(),
            n == doc_len(all.take(i as int)),
        decreases terms@.len() - i,
    {
        proof {
            assert(all.take(i + 1).drop_last() =~= all.take(i as int));
            lemma_doc_len_part(all, i + 1);
        }
        n = n + terms[i].1;
        i = i + 1;
    }
    assert(all.take(i as int) =~= all);
    n
}

proof fn lemma_doc_len_part(terms: Terms, i: int)
    requires
        0 <= i <= terms.len(),
    ensures
        doc_len(terms.take(i)) <= doc_len(terms),
    decreases terms.len() - i,
{
    if i < terms.len() {
        lemma_doc_len_part(terms, i + 1);
        assert(terms.take(i + 1).drop_last() =~= terms.take(i));
    } else {
        assert(terms.take(i) =~= terms);
    }
}

impl TextIndex {
    /// The documents by node.
    pub open spec fn view(&self) -> Map<NodeId, Terms> {
        self.content@
    }

    pub open spec fn wf(&self) -> bool {
        self.holds(self@)
    }

    /// The index holds these documents.
    pub open spec fn holds(&self, d: Map<NodeId, Terms>) -> bool {
        &&& self.docs.wf()
        &&& self.postings.wf()
        &&& self.docs@.dom() == d.dom()
        &&& forall|node: NodeId| #[trigger]
            d.dom().contains(node) ==> self.docs@[node] == doc_len(d[node])
        &&& forall|key: Seq<u8>| #[trigger]
            self.postings.has(key) ==> is_posting(self.label, self.prop, key)
        &&& forall|term: Seq<char>, node: NodeId, f: u32| #[trigger]
            self.postings.has(entry_key(self.label, self.prop, term, node, f))
                <==> d.dom().contains(node) && d[node].contains((term, f))
    }

    /// An index without documents.
    pub fn new(label: LabelId, prop: PropKeyId, language: u8) -> (t: TextIndex)
        ensures
            t.wf(),
            t@ == Map::<NodeId, Terms>::empty(),
            t.label == label,
            t.prop == prop,
            t.language == language,
    {
        let t: TextIndex = TextIndex {
            label,
            prop,
            language,
            docs: Table::new(),
            postings: KeySet::new(),
            content: Ghost(Map::empty()),
        };
        assert(t.docs@.dom() =~= Map::<NodeId, Terms>::empty().dom());
        t
    }

    /// Adds the document of a node. One without terms is not added.
    pub fn add_document(&mut self, node: NodeId, terms: &Vec<(String, u32)>)
        requires
            old(self).wf(),
            !old(self)@.dom().contains(node),
            doc_len(terms_of(terms@)) <= u32::MAX,
        ensures
            final(self).label == old(self).label,
            final(self).prop == old(self).prop,
            final(self).language == old(self).language,
            final(self).wf(),
            final(self)@ == if doc_len(terms_of(terms@)) > 0 {
                old(self)@.insert(node, terms_of(terms@))
            } else {
                old(self)@
            },
    {
        let len: u32 = measure(terms);
        if len == 0 {
            return;
        }
        let ghost d = self@;
        let ghost all = terms_of(terms@);
        let ghost now = d.insert(node, all);
        let ghost before = *self;
        self.docs.put(node, len);
        let mut i: usize = 0;
        while i < terms.len()
            invariant
                all == terms_of(terms@),
                i <= terms@.len(),
                before.holds(d),
                !d.dom().contains(node),
                self.label == before.label,
                self.prop == before.prop,
                self.language == before.language,
                self.docs.wf(),
                self.docs@ == before.docs@.insert(node, len),
                self.postings.wf(),
                forall|key: Seq<u8>| #[trigger]
                    self.postings.has(key) ==> is_posting(self.label, self.prop, key),
                forall|term: Seq<char>, x: NodeId, f: u32| #[trigger]
                    self.postings.has(entry_key(self.label, self.prop, term, x, f)) <==> (
                    d.dom().contains(x) && d[x].contains((term, f))) || (x == node && all.take(
                        i as int,
                    ).contains((term, f))),
            decreases terms@.len() - i,
        {
            let ghost had = self.postings;
            let ghost t = all[i as int];
            self.postings.insert(
                build_key(self.label, self.prop, terms[i].0.as_str(), node, terms[i].1),
            );
            proof {
                let (a, b) = (all.take(i as int), all.take(i + 1));
                assert forall|key: Seq<u8>| #[trigger] self.postings.has(key) implies is_posting(
                    self.label,
                    self.prop,
                    key,
                ) by {
                    if key != entry_key(self.label, self.prop, t.0, node, t.1) {
                        assert(had.has(key));
                    }
                }
                assert forall|term: Seq<char>, x: NodeId, f: u32| #[trigger]
                    self.postings.has(entry_key(self.label, self.prop, term, x, f)) <==> (
                    d.dom().contains(x) && d[x].contains((term, f))) || (x == node && b.contains(
                        (term, f),
                    )) by {
                    lemma_entry_key(self.label, self.prop, term, x, f, t.0, node, t.1);
                    assert(had.has(entry_key(self.label, self.prop, term, x, f)) <==> (
                    d.dom().contains(x) && d[x].contains((term, f))) || (x == node && a.contains(
                        (term, f),
                    )));
                    if a.contains((term, f)) {
                        let j = a.index_of((term, f));
                        assert(b[j] == (term, f));
                    }
                    assert(b[i as int] == t);
                    if b.contains((term, f)) {
                        let j = b.index_of((term, f));
                        if j < i {
                            assert(a[j] == (term, f));
                        }
                    }
                }
            }
            i = i + 1;
        }
        proof {
            assert(all.take(i as int) =~= all);
            assert(self.docs@.dom() =~= now.dom());
            assert forall|term: Seq<char>, x: NodeId, f: u32| #[trigger]
                self.postings.has(entry_key(self.label, self.prop, term, x, f))
                    <==> now.dom().contains(x) && now[x].contains((term, f)) by {}
            assert forall|x: NodeId| #[trigger] now.dom().contains(x) implies self.docs@[x]
                == doc_len(now[x]) by {
                if x != node {
                    assert(d.dom().contains(x));
                }
            }
        }
        self.content = Ghost(now);
    }

    /// Removes the document of a node, where it is there.
    pub fn remove_document(&mut self, node: NodeId, terms: &Vec<(String, u32)>)
        requires
            old(self).wf(),
            old(self)@.dom().contains(node) ==> old(self)@[node] == terms_of(terms@),
        ensures
            final(self).label == old(self).label,
            final(self).prop == old(self).prop,
            final(self).language == old(self).language,
            final(self).wf(),
            final(self)@ == old(self)@.remove(node),
    {
        let ghost d = self@;
        let ghost all = terms_of(terms@);
        let ghost now = d.remove(node);
        let ghost before = *self;
        let taken: Option<u32> = self.docs.take(node);
        match taken {
            None => {
                proof {
                    assert(before.docs@.remove(node) =~= before.docs@);
                    assert(now =~= d);
                }
            },
            Some(_) => {
                let mut i: usize = 0;
                while i < terms.len()
                    invariant
                        all == terms_of(terms@),
                        i <= terms@.len(),
                        before.holds(d),
                        d.dom().contains(node),
                        d[node] == all,
                        self.label == before.label,
                        self.prop == before.prop,
                        self.language == before.language,
                        self.docs.wf(),
                        self.docs@ == before.docs@.remove(node),
                        self.postings.wf(),
                        forall|key: Seq<u8>| #[trigger]
                            self.postings.has(key) ==> before.postings.has(key),
                        forall|term: Seq<char>, x: NodeId, f: u32| #[trigger]
                            self.postings.has(entry_key(self.label, self.prop, term, x, f))
                                <==> d.dom().contains(x) && d[x].contains((term, f)) && !(x
                                == node && all.take(i as int).contains((term, f))),
                    decreases terms@.len() - i,
                {
                    let ghost had = self.postings;
                    let ghost t = all[i as int];
                    let key: Vec<u8> = build_key(
                        self.label,
                        self.prop,
                        terms[i].0.as_str(),
                        node,
                        terms[i].1,
                    );
                    self.postings.remove(key.as_slice());
                    proof {
                        let (a, b) = (all.take(i as int), all.take(i + 1));
                        assert forall|term: Seq<char>, x: NodeId, f: u32| #[trigger]
                            self.postings.has(entry_key(self.label, self.prop, term, x, f))
                                <==> d.dom().contains(x) && d[x].contains((term, f)) && !(x
                                == node && b.contains((term, f))) by {
                            lemma_entry_key(self.label, self.prop, term, x, f, t.0, node, t.1);
                            assert(had.has(entry_key(self.label, self.prop, term, x, f))
                                <==> d.dom().contains(x) && d[x].contains((term, f)) && !(x
                                == node && a.contains((term, f))));
                            if a.contains((term, f)) {
                                let j = a.index_of((term, f));
                                assert(b[j] == (term, f));
                            }
                            assert(b[i as int] == t);
                            if b.contains((term, f)) {
                                let j = b.index_of((term, f));
                                if j < i {
                                    assert(a[j] == (term, f));
                                }
                            }
                        }
                    }
                    i = i + 1;
                }
                proof {
                    assert(all.take(i as int) =~= all);
                    assert(self.docs@.dom() =~= now.dom());
                    assert forall|key: Seq<u8>| #[trigger]
                        self.postings.has(key) implies is_posting(self.label, self.prop, key) by {
                        assert(before.postings.has(key));
                    }
                    assert forall|term: Seq<char>, x: NodeId, f: u32| #[trigger]
                        self.postings.has(entry_key(self.label, self.prop, term, x, f))
                            <==> now.dom().contains(x) && now[x].contains((term, f)) by {}
                    assert forall|x: NodeId| #[trigger]
                        now.dom().contains(x) implies self.docs@[x] == doc_len(now[x]) by {
                        assert(d.dom().contains(x));
                    }
                }
            },
        }
        self.content = Ghost(now);
    }

    /// The length of a node's document.
    pub fn fts_doc_len(&self, node: NodeId) -> (r: Option<u32>)
        requires
            self.wf(),
        ensures
            r is Some <==> self@.dom().contains(node),
            r matches Some(n) ==> n == doc_len(self@[node]),
    {
        match self.docs.get(node) {
            Some(n) => Some(*n),
            None => None,
        }
    }

    /// The nodes that have a term, with its frequencies, in ascending order.
    pub fn fts_postings(&self, term: &str) -> (out: Vec<(NodeId, u32)>)
        requires
            self.wf(),
        ensures
            forall|i: int, j: int|
                0 <= i < j < out@.len() ==> out@[i].0 < out@[j].0 || (out@[i].0 == out@[j].0
                    && out@[i].1 < out@[j].1),
            forall|node: NodeId, f: u32| #[trigger]
                out@.contains((node, f)) <==> self@.dom().contains(node) && self@[node].contains(
                    (term@, f),
                ),
    {
        let ghost d = self@;
        let prefix: Vec<u8> = fts_postings_key(self.label, self.prop, term);
        let ghost p = prefix@;
        let (lo, hi): (usize, usize) = self.postings.scan(prefix.as_slice());
        let ghost ks = self.postings.keys@;
        let mut out: Vec<(NodeId, u32)> = Vec::new();
        let mut i: usize = lo;
        while i < hi
            invariant
                self.holds(d),
                ks == self.postings.keys@,
                p == prefix@,
                p == posting_key(self.label, self.prop, encode_utf8(term@)),
                lo <= i <= hi <= ks.len(),
                forall|k: int|
                    0 <= k < ks.len() ==> (lo <= k < hi <==> begins(p, #[trigger] ks[k]@)),
                forall|a: int, b: int|
                    0 <= a < b < out@.len() ==> out@[a].0 < out@[b].0 || (out@[a].0 == out@[b].0
                        && out@[a].1 < out@[b].1),
                forall|j: int|
                    0 <= j < out@.len() ==> listed_before(ks, i as int, p, #[trigger] out@[j]),
                forall|k: int, node: NodeId, f: u32|
                    #![trigger ks[k], posting_val(node, f)]
                    lo <= k < i && ks[k]@ == p + posting_val(node, f) ==> out@.contains((node, f)),
            decreases hi - i,
        {
            let ghost key = ks[i as int]@;
            let ghost before = out@;
            let ghost (t, x, g) = choose|t: Seq<char>, x: NodeId, g: u32|
                key == #[trigger] entry_key(self.label, self.prop, t, x, g);
            proof {
                assert(self.postings.has(key));
                lemma_entry_key(self.label, self.prop, term@, x, g, t, x, g);
                lemma_entry_key(self.label, self.prop, t, x, g, t, x, g);
                assert(key.len() >= p.len());
            }
            let n: usize = self.postings.keys[i].len();
            if n - prefix.len() == 12 {
                let val: &[u8] = vstd::slice::slice_subrange(
                    self.postings.keys[i].as_slice(),
                    prefix.len(),
                    n,
                );
                proof {
                    assert(t == term@);
                    assert(val@ =~= key.skip(p.len() as int));
                }
                match parse_fts_posting_val(val) {
                    Ok((node, f)) => {
                        proof {
                            lemma_posting_val_injective(node, f, x, g);
                            assert forall|j: int| 0 <= j < before.len() implies before[j].0 < node
                                || (before[j].0 == node && before[j].1 < f) by {
                                let k = choose|k: int|
                                    0 <= k < i && (#[trigger] ks[k])@ == p + posting_val(
                                        before[j].0,
                                        before[j].1,
                                    );
                                assert(listed_before(ks, i as int, p, before[j]));
                                assert(bytes_lt(ks[k]@, ks[i as int]@));
                                lemma_posting_order(p, before[j].0, before[j].1, node, f);
                            }
                        }
                        out.push((node, f));
                        assert(out@[before.len() as int] == (node, f));
                    },
                    Err(_) => {},
                }
            }
            proof {
                assert forall|j: int| 0 <= j < out@.len() implies listed_before(
                    ks,
                    i + 1,
                    p,
                    #[trigger] out@[j],
                ) by {
                    if j < before.len() {
                        assert(listed_before(ks, i as int, p, before[j]));
                        let k = choose|k: int|
                            0 <= k < i && (#[trigger] ks[k])@ == p + posting_val(
                                before[j].0,
                                before[j].1,
                            );
                        assert(0 <= k < i + 1 && ks[k]@ == p + posting_val(out@[j].0, out@[j].1));
                    } else {
                        assert(ks[i as int]@ == p + posting_val(out@[j].0, out@[j].1));
                    }
                }
                assert forall|k: int, node: NodeId, f: u32|
                    #![trigger ks[k], posting_val(node, f)]
                    lo <= k < i + 1 && ks[k]@ == p + posting_val(node, f) implies out@.contains(
                    (node, f),
                ) by {
                    if k < i {
                        assert(before.contains((node, f)));
                        let j = before.index_of((node, f));
                        assert(out@[j] == (node, f));
                    } else {
                        assert(key == entry_key(self.label, self.prop, term@, node, f));
                        lemma_entry_key(self.label, self.prop, term@, node, f, t, x, g);
                    }
                }
            }
            i = i + 1;
        }
        proof {
            assert forall|node: NodeId, f: u32| #[trigger]
                out@.contains((node, f)) <==> d.dom().contains(node) && d[node].contains(
                    (term@, f),
                ) by {
                let key = entry_key(self.label, self.prop, term@, node, f);
                assert(self.postings.has(key) <==> d.dom().contains(node) && d[node].contains(
                    (term@, f),
                ));
                if out@.contains((node, f)) {
                    let j = out@.index_of((node, f));
                    assert(listed_before(ks, i as int, p, out@[j]));
                    let k = choose|k: int|
                        0 <= k < i && (#[trigger] ks[k])@ == p + posting_val(node, f);
                    assert(self.postings.has(ks[k]@));
                }
                if self.postings.has(key) {
                    let k = choose|k: int| 0 <= k < ks.len() && (#[trigger] ks[k])@ == key;
                    lemma_entry_key(self.label, self.prop, term@, node, f, term@, node, f);
                    assert(begins(p, ks[k]@));
                    assert(ks[k]@ == p + posting_val(node, f));
                }
            }
        }
        out
    }

    proof fn lemma_lengths_total(&self, k: int)
        requires
            self.wf(),
            0 <= k <= self.docs.keys@.len(),
        ensures
            lengths(self.docs.vals@, k) == total_len(self@, self.docs.keys@, k),
        decreases k,
    {
        if k > 0 {
            self.lemma_lengths_total(k - 1);
            let node = self.docs.keys@[k - 1];
            assert(self.docs.keys@.contains(node));
            assert(self.docs@.dom().contains(node));
            assert(self@.dom().contains(node));
        }
    }

    /// How many documents there are, and how long they are all together.
    pub fn fts_stats(&self) -> (r: (u64, u64))
        requires
            self.wf(),
            lengths(self.docs.vals@, self.docs.vals@.len() as int) <= u64::MAX,
        ensures
            counted(self@, r.0 as nat, r.1 as nat),
    {
        let mut total: u64 = 0;
        let mut i: usize = 0;
        while i < self.docs.vals.len()
            invariant
                self.wf(),
                i <= self.docs.vals@.len(),
                lengths(self.docs.vals@, self.docs.vals@.len() as int) <= u64::MAX,
                total == lengths(self.docs.vals@, i as int),
            decreases self.docs.vals@.len() - i,
        {
            proof {
                lemma_lengths(self.docs.vals@, i + 1, self.docs.vals@.len() as int);
            }
            total = total + self.docs.vals[i] as u64;
            i = i + 1;
        }
        proof {
            let nodes = self.docs.keys@;
            assert forall|k: int| 0 <= k <= nodes.len() implies lengths(self.docs.vals@, k)
                == total_len(self@, nodes, k) by {
                self.lemma_lengths_total(k);
            }
            assert forall|node: NodeId| #[trigger] nodes.contains(node) <==> self@.dom().contains(
                node,
            ) by {
                assert(self.docs@.dom().contains(node) <==> self@.dom().contains(node));
            }
            assert(lists_documents(self@, nodes));
        }
        (self.docs.keys.len() as u64, total)
    }
}

/// `nodes` are the nodes with documents, in ascending order.
pub open spec fn lists_documents(d: Map<NodeId, Terms>, nodes: Seq<NodeId>) -> bool {
    ascending(nodes) && forall|node: NodeId| #[trigger]
        nodes.contains(node) <==> d.dom().contains(node)
}

/// The lengths of the documents of the first `k` nodes, added up.
pub open spec fn total_len(d: Map<NodeId, Terms>, nodes: Seq<NodeId>, k: int) -> nat
    decreases k,
{
    if k <= 0 {
        0
    } else {
        total_len(d, nodes, k - 1) + doc_len(d[nodes[k - 1]])
    }
}

/// There are `n` documents, of length `total` all together.
pub open spec fn counted(d: Map<NodeId, Terms>, n: nat, total: nat) -> bool {
    exists|nodes: Seq<NodeId>| #[trigger]
        lists_documents(d, nodes) && nodes.len() == n && total_len(d, nodes, n as int) == total
}

/// The lengths of the first `k` documents, added up.
pub open spec fn lengths(s: Seq<u32>, k: int) -> nat
    decreases k,
{
    if k <= 0 {
        0
    } else {
        lengths(s, k - 1) + s[k - 1] as nat
    }
}

proof fn lemma_lengths(s: Seq<u32>, a: int, b: int)
    requires
        0 <= a <= b,
    ensures
        lengths(s, a) <= lengths(s, b),
    decreases b,
{
    if a < b {
        lemma_lengths(s, a, b - 1);
    }
}

/// Whether a posting is among the first `i` keys.
spec fn listed_before(ks: Seq<Vec<u8>>, i: int, p: Seq<u8>, posting: (NodeId, u32)) -> bool {
    exists|k: int| 0 <= k < i && (#[trigger] ks[k])@ == p + posting_val(posting.0, posting.1)
}

/// The property numbers and texts that the text indexes on a label take from a
/// node's properties, in the order of the indexes.
pub open spec fn texts_in(
    indexes: Seq<(LabelId, PropKeyId)>,
    keys: Seq<Seq<char>>,
    label: LabelId,
    props: Map<Seq<char>, Val>,
) -> Seq<(PropKeyId, Seq<char>)>
    decreases indexes.len(),
{
    if indexes.len() == 0 {
        Seq::empty()
    } else {
        let before = texts_in(indexes.drop_last(), keys, label, props);
        let (l, p) = indexes.last();
        if l == label && p < keys.len() && props.dom().contains(keys[p as int]) {
            match props[keys[p as int]] {
                Val::Str(s) => before.push((p, s)),
                _ => before,
            }
        } else {
            before
        }
    }
}

/// The texts that the text indexes on a label take from a node's properties.
pub fn indexed_texts(
    indexes: &Vec<(LabelId, PropKeyId)>,
    keys: &Names,
    label: LabelId,
    props: &Props,
) -> (out: Vec<(PropKeyId, String)>)
    requires
        props.wf(),
    ensures
        out@.map_values(|t: (PropKeyId, String)| (t.0, t.1@)) == texts_in(
            indexes@,
            keys@,
            label,
            props@,
        ),
{
    let mut out: Vec<(PropKeyId, String)> = Vec::new();
    let ghost f = |t: (PropKeyId, String)| (t.0, t.1@);
    let mut i: usize = 0;
    assert(indexes@.take(0) =~= Seq::<(LabelId, PropKeyId)>::empty());
    assert(out@.map_values(f) =~= texts_in(indexes@.take(0), keys@, label, props@));
    while i < indexes.len()
        invariant
            props.wf(),
            f == (|t: (PropKeyId, String)| (t.0, t.1@)),
            i <= indexes@.len(),
            out@.map_values(f) == texts_in(indexes@.take(i as int), keys@, label, props@),
        decreases indexes@.len() - i,
    {
        let (l, p): (LabelId, PropKeyId) = indexes[i];
        let ghost before = out@;
        proof {
            assert(indexes@.take(i + 1).drop_last() =~= indexes@.take(i as int));
            assert(indexes@.take(i + 1).last() == (l, p));
        }
        if l == label && (p as usize) < keys.names.len() {
            assert(keys@[p as int] == keys.names@[p as int]@);
            if let Some(PropValue::Str(s)) = props.get(keys.names[p as usize].as_str()) {
                out.push((p, s.clone()));
                assert(out@.map_values(f) =~= before.map_values(f).push((p, s@)));
            }
        }
        i = i + 1;
    }
    assert(indexes@.take(i as int) =~= indexes@);
    out
}

/// The documents in a list, by node. Those without terms are left out.
pub open spec fn documents_of(list: Seq<(NodeId, Vec<(String, u32)>)>) -> Map<NodeId, Terms>
    decreases list.len(),
{
    if list.len() == 0 {
        Map::empty()
    } else {
        let before = documents_of(list.drop_last());
        let terms = terms_of(list.last().1@);
        if doc_len(terms) > 0 {
            before.insert(list.last().0, terms)
        } else {
            before
        }
    }
}

proof fn lemma_documents_of(list: Seq<(NodeId, Vec<(String, u32)>)>, node: NodeId)
    requires
        documents_of(list).dom().contains(node),
    ensures
        exists|i: int| 0 <= i < list.len() && (#[trigger] list[i]).0 == node,
    decreases list.len(),
{
    let last = list.len() - 1;
    if list[last].0 != node {
        lemma_documents_of(list.drop_last(), node);
        let i = choose|i: int| 0 <= i < list.len() - 1 && (#[trigger] list.drop_last()[i]).0 == node;
        assert(list[i].0 == node);
    }
}

/// A text index: what it is on, its language and its documents.
pub struct TextDef {
    pub label: LabelId,
    pub prop: PropKeyId,
    pub language: u8,
    pub docs: Map<NodeId, Terms>,
}

/// The text by which text indexes are ordered.
pub open spec fn text_key(label: LabelId, prop: PropKeyId) -> Seq<u8> {
    encode_utf8(pair_name(""@, label, prop, ""@))
}

/// Whether the text index at `i` is on this property of this label.
pub open spec fn text_at(defs: Seq<TextDef>, label: LabelId, prop: PropKeyId, i: int) -> bool {
    0 <= i < defs.len() && defs[i].label == label && defs[i].prop == prop
}

/// Whether there is a text index on this property of this label.
pub open spec fn has_text(defs: Seq<TextDef>, label: LabelId, prop: PropKeyId) -> bool {
    exists|i: int| #[trigger] text_at(defs, label, prop, i)
}

/// The position of the text index on this property of this label.
pub open spec fn text_position(defs: Seq<TextDef>, label: LabelId, prop: PropKeyId) -> int {
    choose|i: int| #[trigger] text_at(defs, label, prop, i)
}

/// The first position from `i` on whose text index does not sort before this one.
pub open spec fn text_place(defs: Seq<TextDef>, label: LabelId, prop: PropKeyId, i: int) -> int
    decreases defs.len() - i,
{
    if i < defs.len() && bytes_lt(text_key(defs[i].label, defs[i].prop), text_key(label, prop)) {
        text_place(defs, label, prop, i + 1)
    } else {
        i
    }
}

pub proof fn lemma_text_place(defs: Seq<TextDef>, label: LabelId, prop: PropKeyId, i: int)
    requires
        0 <= i <= defs.len(),
    ensures
        i <= text_place(defs, label, prop, i) <= defs.len(),
    decreases defs.len() - i,
{
    if i < defs.len() && bytes_lt(text_key(defs[i].label, defs[i].prop), text_key(label, prop)) {
        lemma_text_place(defs, label, prop, i + 1);
    }
}

/// No two text indexes are on the same property of the same label.
pub open spec fn distinct_texts(defs: Seq<TextDef>) -> bool {
    forall|i: int, j: int|
        0 <= i < j < defs.len() ==> (#[trigger] defs[i]).label != (#[trigger] defs[j]).label
            || defs[i].prop != defs[j].prop
}

/// The text indexes of a graph, in the order of their names.
pub struct TextIndexes {
    pub list: Vec<TextIndex>,
}

impl TextIndex {
    /// What the index is.
    pub open spec fn def(&self) -> TextDef {
        TextDef { label: self.label, prop: self.prop, language: self.language, docs: self@ }
    }
}

/// What a text index is.
pub open spec fn def_of() -> spec_fn(TextIndex) -> TextDef {
    |t: TextIndex| t.def()
}

impl TextIndexes {
    pub open spec fn view(&self) -> Seq<TextDef> {
        self.list@.map_values(def_of())
    }

    pub open spec fn wf(&self) -> bool {
        &&& forall|i: int| 0 <= i < self.list@.len() ==> (#[trigger] self.list@[i]).wf()
        &&& distinct_texts(self@)
    }

    /// No text indexes.
    pub fn new() -> (t: TextIndexes)
        ensures
            t.wf(),
            t@ == Seq::<TextDef>::empty(),
    {
        let t: TextIndexes = TextIndexes { list: Vec::new() };
        assert(t@ =~= Seq::<TextDef>::empty());
        t
    }

    /// The position of the text index on a property of a label.
    pub fn position(&self, label: LabelId, prop: PropKeyId) -> (r: Option<usize>)
        requires
            self.wf(),
        ensures
            r is Some <==> has_text(self@, label, prop),
            r matches Some(i) ==> i == text_position(self@, label, prop) && i < self.list@.len()
                && text_at(self@, label, prop, i as int),
    {
        let mut i: usize = 0;
        while i < self.list.len()
            invariant
                self.wf(),
                i <= self.list@.len(),
                forall|j: int| 0 <= j < i ==> !#[trigger] text_at(self@, label, prop, j),
            decreases self.list@.len() - i,
        {
            assert(self@[i as int] == self.list@[i as int].def());
            if self.list[i].label == label && self.list[i].prop == prop {
                assert(text_at(self@, label, prop, i as int));
                return Some(i);
            }
            i = i + 1;
        }
        None
    }

    /// Defines a text index on a property of a label over these documents,
    /// where there is none yet.
    pub fn define(
        &mut self,
        label: LabelId,
        prop: PropKeyId,
        language: u8,
        documents: &Vec<(NodeId, Vec<(String, u32)>)>,
    )
        requires
            old(self).wf(),
            forall|i: int, j: int|
                0 <= i < j < documents@.len() ==> (#[trigger] documents@[i]).0 != (
                #[trigger] documents@[j]).0,
            forall|i: int|
                0 <= i < documents@.len() ==> doc_len(terms_of((#[trigger] documents@[i]).1@))
                    <= u32::MAX,
        ensures
            final(self).wf(),
            final(self)@ == if has_text(old(self)@, label, prop) {
                old(self)@
            } else {
                old(self)@.insert(
                    text_place(old(self)@, label, prop, 0),
                    (TextDef { label, prop, language, docs: documents_of(documents@) }),
                )
            },
    {
        if self.position(label, prop).is_some() {
            return;
        }
        let ghost before = self@;
        let mut index: TextIndex = TextIndex::new(label, prop, language);
        let mut k: usize = 0;
        assert(documents@.take(0) =~= Seq::<(NodeId, Vec<(String, u32)>)>::empty());
        while k < documents.len()
            invariant
                k <= documents@.len(),
                forall|i: int, j: int|
                    0 <= i < j < documents@.len() ==> (#[trigger] documents@[i]).0 != (
                    #[trigger] documents@[j]).0,
                forall|i: int|
                    0 <= i < documents@.len() ==> doc_len(terms_of((#[trigger] documents@[i]).1@))
                        <= u32::MAX,
                index.wf(),
                index.label == label,
                index.prop == prop,
                index.language == language,
                index@ == documents_of(documents@.take(k as int)),
            decreases documents@.len() - k,
        {
            proof {
                let part = documents@.take(k as int);
                let node = documents@[k as int].0;
                if documents_of(part).dom().contains(node) {
                    lemma_documents_of(part, node);
                    let i = choose|i: int| 0 <= i < part.len() && (#[trigger] part[i]).0 == node;
                    assert(documents@[i].0 != documents@[k as int].0);
                }
                assert(documents@.take(k + 1).drop_last() =~= part);
            }
            index.add_document(documents[k].0, &documents[k].1);
            k = k + 1;
        }
        assert(documents@.take(k as int) =~= documents@);
        let key: String = build_pair_name("", label, prop, "");
        let mut i: usize = 0;
        let mut done: bool = false;
        while i < self.list.len() && !done
            invariant
                i <= self.list@.len(),
                self@ == before,
                self.wf(),
                encode_utf8(key@) == text_key(label, prop),
                text_place(before, label, prop, 0) == text_place(before, label, prop, i as int),
                done ==> text_place(before, label, prop, 0) == i,
            ensures
                text_place(before, label, prop, 0) == i,
            decreases self.list@.len() - i, bit(!done),
        {
            assert(before[i as int] == self.list@[i as int].def());
            let other: String = build_pair_name("", self.list[i].label, self.list[i].prop, "");
            if bytes_less(other.as_str().as_bytes(), key.as_str().as_bytes()) {
                i = i + 1;
            } else {
                done = true;
            }
        }
        let ghost def = index.def();
        let ghost had = self.list@;
        self.list.insert(i, index);
        proof {
            assert(self@ =~= before.insert(i as int, def));
            assert forall|j: int| 0 <= j < self.list@.len() implies (#[trigger] self.list@[j]).wf() by {
                if j < i {
                    assert(self.list@[j] == had[j]);
                } else if j > i {
                    assert(self.list@[j] == had[j - 1]);
                }
            }
            assert forall|a: int, b: int| 0 <= a < b < self@.len() implies (
            #[trigger] self@[a]).label != (#[trigger] self@[b]).label || self@[a].prop
                != self@[b].prop by {
                let x = if a < i {
                    a
                } else {
                    a - 1
                };
                let y = if b < i {
                    b
                } else {
                    b - 1
                };
                if a == i {
                    assert(self@[b] == before[y]);
                    assert(!text_at(before, label, prop, y));
                } else if b == i {
                    assert(self@[a] == before[x]);
                    assert(!text_at(before, label, prop, x));
                } else {
                    assert(self@[a] == before[x] && self@[b] == before[y]);
                }
            }
        }
    }

    /// Takes the text index on a property of a label away, where there is one.
    pub fn undefine(&mut self, label: LabelId, prop: PropKeyId)
        requires
            old(self).wf(),
        ensures
            final(self).wf(),
            final(self)@ == if has_text(old(self)@, label, prop) {
                old(self)@.remove(text_position(old(self)@, label, prop))
            } else {
                old(self)@
            },
    {
        if let Some(i) = self.position(label, prop) {
            let ghost before = *self;
            self.list.remove(i);
            proof {
                assert(self@ =~= before@.remove(i as int));
                assert forall|j: int| 0 <= j < self.list@.len() implies (
                #[trigger] self.list@[j]).wf() by {
                    if j < i {
                        assert(self.list@[j] == before.list@[j]);
                    } else {
                        assert(self.list@[j] == before.list@[j + 1]);
                    }
                }
                assert forall|a: int, b: int| 0 <= a < b < self@.len() implies (
                #[trigger] self@[a]).label != (#[trigger] self@[b]).label || self@[a].prop
                    != self@[b].prop by {
                    let x = if a < i {
                        a
                    } else {
                        a + 1
                    };
                    let y = if b < i {
                        b
                    } else {
                        b + 1
                    };
                    assert(self@[a] == before@[x] && self@[b] == before@[y]);
                }
            }
        }
    }

    /// Adds a node's document to the text index on a property of a label,
    /// where there is one. A document without terms is not added.
    pub fn add_entry(
        &mut self,
        node: NodeId,
        label: LabelId,
        prop: PropKeyId,
        terms: &Vec<(String, u32)>,
    )
        requires
            old(self).wf(),
            has_text(old(self)@, label, prop) ==> !old(self)@[text_position(
                old(self)@,
                label,
                prop,
            )].docs.dom().contains(node),
            doc_len(terms_of(terms@)) <= u32::MAX,
        ensures
            final(self).wf(),
            final(self)@ == with_document(old(self)@, node, label, prop, terms_of(terms@)),
    {
        if let Some(i) = self.position(label, prop) {
            self.add_at(i, node, terms);
        }
    }

    /// Adds a node's document to the text index at a position. One without terms is
    /// not added.
    pub fn add_at(&mut self, i: usize, node: NodeId, terms: &Vec<(String, u32)>)
        requires
            old(self).wf(),
            i < old(self).list@.len(),
            !old(self)@[i as int].docs.dom().contains(node),
            doc_len(terms_of(terms@)) <= u32::MAX,
        ensures
            final(self).wf(),
            final(self)@ == if doc_len(terms_of(terms@)) > 0 {
                old(self)@.update(
                    i as int,
                    (TextDef {
                        docs: old(self)@[i as int].docs.insert(node, terms_of(terms@)),
                        ..old(self)@[i as int]
                    }),
                )
            } else {
                old(self)@
            },
    {
        let ghost before = *self;
        assert(before@[i as int] == before.list@[i as int].def());
        self.list[i].add_document(node, terms);
        proof {
            assert(self.list@ =~= before.list@.update(i as int, self.list@[i as int]));
            lemma_replaced(before, *self, i as int);
            if doc_len(terms_of(terms@)) == 0 {
                assert(self@ =~= before@);
            }
        }
    }

    /// Removes a node's document from the text index at a position, where it is
    /// there.
    pub fn remove_at(&mut self, i: usize, node: NodeId, terms: &Vec<(String, u32)>)
        requires
            old(self).wf(),
            i < old(self).list@.len(),
            old(self)@[i as int].docs.dom().contains(node) ==> old(self)@[i as int].docs[node]
                == terms_of(terms@),
        ensures
            final(self).wf(),
            final(self)@ == old(self)@.update(
                i as int,
                (TextDef {
                    docs: old(self)@[i as int].docs.remove(node),
                    ..old(self)@[i as int]
                }),
            ),
    {
        let ghost before = *self;
        assert(before@[i as int] == before.list@[i as int].def());
        self.list[i].remove_document(node, terms);
        proof {
            assert(self.list@ =~= before.list@.update(i as int, self.list@[i as int]));
            lemma_replaced(before, *self, i as int);
        }
    }

    /// Removes a node's document from the text index on a property of a label,
    /// where it is there.
    pub fn remove_entry(
        &mut self,
        node: NodeId,
        label: LabelId,
        prop: PropKeyId,
        terms: &Vec<(String, u32)>,
    )
        requires
            old(self).wf(),
            has_text(old(self)@, label, prop) && old(self)@[text_position(
                old(self)@,
                label,
                prop,
            )].docs.dom().contains(node) ==> old(self)@[text_position(
                old(self)@,
                label,
                prop,
            )].docs[node] == terms_of(terms@),
        ensures
            final(self).wf(),
            final(self)@ == without_document(old(self)@, node, label, prop),
    {
        if let Some(i) = self.position(label, prop) {
            self.remove_at(i, node, terms);
        }
    }

    /// The properties and labels that there are text indexes on.
    pub fn pairs(&self) -> (out: Vec<(LabelId, PropKeyId)>)
        ensures
            out@ == pairs_of(self@),
    {
        let mut out: Vec<(LabelId, PropKeyId)> = Vec::new();
        let mut i: usize = 0;
        while i < self.list.len()
            invariant
                i <= self.list@.len(),
                out@ == pairs_of(self@).take(i as int),
            decreases self.list@.len() - i,
        {
            assert(self@[i as int] == self.list@[i as int].def());
            out.push((self.list[i].label, self.list[i].prop));
            i = i + 1;
            assert(out@ =~= pairs_of(self@).take(i as int));
        }
        assert(out@ =~= pairs_of(self@));
        out
    }
}

/// What text indexes are on.
pub open spec fn pairs_of(defs: Seq<TextDef>) -> Seq<(LabelId, PropKeyId)> {
    defs.map_values(|t: TextDef| (t.label, t.prop))
}

/// The text indexes after a node's document is added.
pub open spec fn with_document(
    defs: Seq<TextDef>,
    node: NodeId,
    label: LabelId,
    prop: PropKeyId,
    terms: Terms,
) -> Seq<TextDef> {
    let i = text_position(defs, label, prop);
    if has_text(defs, label, prop) && doc_len(terms) > 0 {
        defs.update(i, TextDef { docs: defs[i].docs.insert(node, terms), ..defs[i] })
    } else {
        defs
    }
}

/// The text indexes after a node's document is removed.
pub open spec fn without_document(
    defs: Seq<TextDef>,
    node: NodeId,
    label: LabelId,
    prop: PropKeyId,
) -> Seq<TextDef> {
    let i = text_position(defs, label, prop);
    if has_text(defs, label, prop) {
        defs.update(i, TextDef { docs: defs[i].docs.remove(node), ..defs[i] })
    } else {
        defs
    }
}

proof fn lemma_replaced(before: TextIndexes, now: TextIndexes, i: int)
    requires
        before.wf(),
        0 <= i < before.list@.len(),
        now.list@ == before.list@.update(i, now.list@[i]),
        now.list@[i].wf(),
        now.list@[i].label == before.list@[i].label,
        now.list@[i].prop == before.list@[i].prop,
    ensures
        now.wf(),
        now@ == before@.update(i, now.list@[i].def()),
{
    assert(now@ =~= before@.update(i, now.list@[i].def()));
    assert forall|j: int| 0 <= j < now.list@.len() implies (#[trigger] now.list@[j]).wf() by {
        if j != i {
            assert(now.list@[j] == before.list@[j]);
        }
    }
    assert forall|a: int, b: int| 0 <= a < b < now@.len() implies (#[trigger] now@[a]).label != (
    #[trigger] now@[b]).label || now@[a].prop != now@[b].prop by {
        assert(before@[a].label != before@[b].label || before@[a].prop != before@[b].prop);
        assert(before@[i] == before.list@[i].def());
    }
}

/// Removing a document right after it was added leaves the text indexes as they were.
pub proof fn lemma_remove_undoes_add(
    defs: Seq<TextDef>,
    node: NodeId,
    label: LabelId,
    prop: PropKeyId,
    terms: Terms,
)
    requires
        distinct_texts(defs),
        has_text(defs, label, prop) ==> !defs[text_position(defs, label, prop)].docs.dom().contains(
            node,
        ),
    ensures
        without_document(
            with_document(defs, node, label, prop, terms),
            node,
            label,
            prop,
        ) == defs,
{
    if has_text(defs, label, prop) {
        let i = text_position(defs, label, prop);
        assert(text_at(defs, label, prop, i));
        let now = with_document(defs, node, label, prop, terms);
        assert(text_at(now, label, prop, i));
        let j = text_position(now, label, prop);
        assert(text_at(now, label, prop, j));
        if i < j {
            assert(defs[i].label != defs[j].label || defs[i].prop != defs[j].prop);
        } else if j < i {
            assert(defs[j].label != defs[i].label || defs[j].prop != defs[i].prop);
        }
        assert(now[i].docs.remove(node) =~= defs[i].docs);
        assert(without_document(now, node, label, prop) =~= defs);
    }
}

} // verus!
