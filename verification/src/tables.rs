//! Ordered tables: records by number, sets of byte keys, names by number, and
//! the properties of a record.

use vstd::prelude::*;

use crate::csr::ascending;
use crate::keys::{
    bytes_equal, bytes_less, bytes_lt, lemma_bytes_lt_irreflexive, lemma_bytes_lt_total, push_all,
};
use crate::value::{copy_value, PropValue, Val};

verus! {

/// Records by number, in ascending order of their numbers.
pub struct Table<V> {
    pub keys: Vec<u64>,
    pub vals: Vec<V>,
}

impl<V> View for Table<V> {
    type V = Map<u64, V>;

    open spec fn view(&self) -> Map<u64, V> {
        Map::new(|k: u64| self.keys@.contains(k), |k: u64| self.vals@[self.keys@.index_of(k)])
    }
}

impl<V> Table<V> {
    pub open spec fn wf(&self) -> bool {
        &&& self.keys@.len() == self.vals@.len()
        &&& ascending(self.keys@)
    }

    /// The record at a position is the one under the number at that position.
    pub proof fn lemma_at(&self, i: int)
        requires
            self.wf(),
            0 <= i < self.keys@.len(),
        ensures
            self@.dom().contains(self.keys@[i]),
            self@[self.keys@[i]] == self.vals@[i],
    {
        let k = self.keys@[i];
        assert(self.keys@.contains(k));
        let j = self.keys@.index_of(k);
        assert(0 <= j < self.keys@.len() && self.keys@[j] == k);
        if j < i {
            assert(self.keys@[j] < self.keys@[i]);
        } else if i < j {
            assert(self.keys@[i] < self.keys@[j]);
        }
    }

    pub fn new() -> (t: Table<V>)
        ensures
            t.wf(),
            t@ == Map::<u64, V>::empty(),
    {
        let t: Table<V> = Table { keys: Vec::new(), vals: Vec::new() };
        assert(t@ =~= Map::<u64, V>::empty());
        t
    }

    /// The first position whose number is at least `k`.
    fn seek(&self, k: u64) -> (pos: usize)
        requires
            self.wf(),
        ensures
            pos <= self.keys@.len(),
            forall|i: int| 0 <= i < pos ==> self.keys@[i] < k,
            forall|i: int| pos <= i < self.keys@.len() ==> self.keys@[i] >= k,
    {
        let mut lo: usize = 0;
        let mut hi: usize = self.keys.len();
        while lo < hi
            invariant
                self.wf(),
                lo <= hi <= self.keys@.len(),
                forall|i: int| 0 <= i < lo ==> self.keys@[i] < k,
                forall|i: int| hi <= i < self.keys@.len() ==> self.keys@[i] >= k,
            decreases hi - lo,
        {
            let mid: usize = lo + (hi - lo) / 2;
            if self.keys[mid] < k {
                lo = mid + 1;
            } else {
                hi = mid;
            }
        }
        lo
    }

    /// The record under a number.
    pub fn get(&self, k: u64) -> (r: Option<&V>)
        requires
            self.wf(),
        ensures
            r is Some <==> self@.dom().contains(k),
            r matches Some(v) ==> *v == self@[k],
    {
        let pos: usize = self.seek(k);
        if pos < self.keys.len() && self.keys[pos] == k {
            proof {
                self.lemma_at(pos as int);
            }
            Some(&self.vals[pos])
        } else {
            None
        }
    }

    pub fn contains(&self, k: u64) -> (r: bool)
        requires
            self.wf(),
        ensures
            r == self@.dom().contains(k),
    {
        let pos: usize = self.seek(k);
        if pos < self.keys.len() && self.keys[pos] == k {
            assert(self.keys@[pos as int] == k);
            true
        } else {
            false
        }
    }

    /// Puts a record under a number, in place of the one that was there.
    pub fn put(&mut self, k: u64, v: V)
        requires
            old(self).wf(),
        ensures
            final(self).wf(),
            final(self)@ == old(self)@.insert(k, v),
    {
        let ghost before = *self;
        let pos: usize = self.seek(k);
        if pos < self.keys.len() && self.keys[pos] == k {
            self.vals.set(pos, v);
        } else {
            self.keys.insert(pos, k);
            self.vals.insert(pos, v);
        }
        proof {
            let (ks, vs) = (before.keys@, before.vals@);
            let found = pos < ks.len() && ks[pos as int] == k;
            assert(self.wf()) by {
                assert forall|i: int, j: int| 0 <= i < j < self.keys@.len() implies self.keys@[i]
                    < self.keys@[j] by {
                    if !found {
                        let a = if i < pos {
                            i
                        } else {
                            i - 1
                        };
                        let b = if j < pos {
                            j
                        } else {
                            j - 1
                        };
                        if i != pos && j != pos {
                            assert(ks[a] < ks[b]);
                        }
                    } else {
                        assert(ks[i] < ks[j]);
                    }
                }
            }
            assert forall|x: u64| #[trigger]
                self.keys@.contains(x) <==> ks.contains(x) || x == k by {
                if ks.contains(x) {
                    let i = ks.index_of(x);
                    if found || i < pos {
                        assert(self.keys@[i] == x);
                    } else {
                        assert(self.keys@[i + 1] == x);
                    }
                }
                assert(self.keys@[pos as int] == k);
                if self.keys@.contains(x) && x != k {
                    let i = self.keys@.index_of(x);
                    if found || i < pos {
                        assert(ks[i] == x);
                    } else {
                        assert(ks[i - 1] == x);
                    }
                }
            }
            assert(self@ =~= before@.insert(k, v)) by {
                assert forall|x: u64| self@.dom().contains(x) implies self@[x] == before@.insert(
                    k,
                    v,
                )[x] by {
                    let i = self.keys@.index_of(x);
                    assert(self.keys@.contains(x));
                    if i == pos {
                        assert(x == k);
                    } else {
                        let o = if found || i < pos {
                            i
                        } else {
                            i - 1
                        };
                        assert(ks[o] == x);
                        before.lemma_at(o);
                        if x == k {
                            self.lemma_at(pos as int);
                        }
                    }
                }
            }
        }
    }

    /// Takes the record under a number out.
    pub fn take(&mut self, k: u64) -> (r: Option<V>)
        requires
            old(self).wf(),
        ensures
            final(self).wf(),
            r is Some <==> old(self)@.dom().contains(k),
            r matches Some(v) ==> v == old(self)@[k],
            final(self)@ == old(self)@.remove(k),
    {
        let ghost before = *self;
        let pos: usize = self.seek(k);
        if pos < self.keys.len() && self.keys[pos] == k {
            self.keys.remove(pos);
            let v: V = self.vals.remove(pos);
            proof {
                let ks = before.keys@;
                before.lemma_at(pos as int);
                assert(self.wf()) by {
                    assert forall|i: int, j: int|
                        0 <= i < j < self.keys@.len() implies self.keys@[i] < self.keys@[j] by {
                        let a = if i < pos {
                            i
                        } else {
                            i + 1
                        };
                        let b = if j < pos {
                            j
                        } else {
                            j + 1
                        };
                        assert(ks[a] < ks[b]);
                    }
                }
                assert forall|x: u64| #[trigger]
                    self.keys@.contains(x) <==> ks.contains(x) && x != k by {
                    if ks.contains(x) && x != k {
                        let i = ks.index_of(x);
                        if i < pos {
                            assert(self.keys@[i] == x);
                        } else {
                            assert(self.keys@[i - 1] == x);
                        }
                    }
                    if self.keys@.contains(x) {
                        let i = self.keys@.index_of(x);
                        let o = if i < pos {
                            i
                        } else {
                            i + 1
                        };
                        assert(ks[o] == x);
                        if i < pos {
                            assert(ks[i] < ks[pos as int]);
                        } else {
                            assert(ks[pos as int] < ks[i + 1]);
                        }
                    }
                }
                assert(self@ =~= before@.remove(k)) by {
                    assert forall|x: u64| self@.dom().contains(x) implies self@[x]
                        == before@.remove(k)[x] by {
                        assert(self.keys@.contains(x));
                        let i = self.keys@.index_of(x);
                        let o = if i < pos {
                            i
                        } else {
                            i + 1
                        };
                        assert(ks[o] == x);
                        before.lemma_at(o);
                    }
                }
            }
            Some(v)
        } else {
            assert(self@ =~= before@.remove(k));
            None
        }
    }
}

/// The order of byte strings is transitive.
pub proof fn lemma_bytes_lt_transitive(a: Seq<u8>, b: Seq<u8>, c: Seq<u8>)
    requires
        bytes_lt(a, b),
        bytes_lt(b, c),
    ensures
        bytes_lt(a, c),
    decreases a.len(),
{
    if a.len() > 0 && a[0] == b[0] && b[0] == c[0] {
        lemma_bytes_lt_transitive(a.skip(1), b.skip(1), c.skip(1));
    }
}

/// Whether a key begins with a prefix.
pub open spec fn begins(prefix: Seq<u8>, key: Seq<u8>) -> bool {
    prefix.len() <= key.len() && key.take(prefix.len() as int) == prefix
}

proof fn lemma_begins_step(p: Seq<u8>, k: Seq<u8>)
    requires
        p.len() > 0,
        k.len() > 0,
    ensures
        begins(p, k) <==> p[0] == k[0] && begins(p.skip(1), k.skip(1)),
{
    if begins(p, k) {
        assert(k.take(p.len() as int)[0] == p[0]);
        assert(k.skip(1).take(p.len() - 1) =~= p.skip(1)) by {
            assert forall|i: int| 0 <= i < p.len() - 1 implies k.skip(1)[i] == p.skip(1)[i] by {
                assert(k.take(p.len() as int)[i + 1] == p[i + 1]);
            }
        }
    }
    if p[0] == k[0] && begins(p.skip(1), k.skip(1)) {
        assert(k.take(p.len() as int) =~= p) by {
            assert forall|i: int| 0 <= i < p.len() implies k[i] == p[i] by {
                if i > 0 {
                    assert(k.skip(1).take(p.len() - 1)[i - 1] == p.skip(1)[i - 1]);
                }
            }
        }
    }
}

/// The keys that begin with a prefix stand together: none is before the
/// prefix, and none follows one that is after the prefix and does not begin with it.
proof fn lemma_prefix_run(p: Seq<u8>, k: Seq<u8>, later: Seq<u8>)
    ensures
        bytes_lt(k, p) ==> !begins(p, k),
        !bytes_lt(k, p) && !begins(p, k) && bytes_lt(k, later) ==> !begins(p, later),
    decreases p.len(),
{
    if p.len() == 0 {
        assert(k.take(0) =~= p);
    } else if k.len() > 0 {
        lemma_begins_step(p, k);
        if later.len() > 0 {
            lemma_begins_step(p, later);
        }
        if p[0] == k[0] {
            lemma_prefix_run(p.skip(1), k.skip(1), later.skip(1));
        }
    }
}

/// A set of byte strings, in lexicographic order.
pub struct KeySet {
    pub keys: Vec<Vec<u8>>,
}

/// Keys in strictly ascending order.
pub open spec fn keys_ascend(s: Seq<Vec<u8>>) -> bool {
    forall|i: int, j: int| 0 <= i < j < s.len() ==> bytes_lt(#[trigger] s[i]@, #[trigger] s[j]@)
}

/// Whether a list of keys holds a key.
pub open spec fn holds_key(s: Seq<Vec<u8>>, key: Seq<u8>) -> bool {
    exists|i: int| 0 <= i < s.len() && (#[trigger] s[i])@ == key
}

impl KeySet {
    pub open spec fn wf(&self) -> bool {
        keys_ascend(self.keys@)
    }

    pub open spec fn has(&self, key: Seq<u8>) -> bool {
        holds_key(self.keys@, key)
    }

    pub fn new() -> (s: KeySet)
        ensures
            s.wf(),
            forall|k: Seq<u8>| !#[trigger] s.has(k),
    {
        KeySet { keys: Vec::new() }
    }

    /// The first position whose key is not before `key`.
    fn seek(&self, key: &[u8]) -> (pos: usize)
        requires
            self.wf(),
        ensures
            pos <= self.keys@.len(),
            forall|i: int| 0 <= i < pos ==> bytes_lt(#[trigger] self.keys@[i]@, key@),
            forall|i: int|
                pos <= i < self.keys@.len() ==> !bytes_lt(#[trigger] self.keys@[i]@, key@),
    {
        let mut lo: usize = 0;
        let mut hi: usize = self.keys.len();
        while lo < hi
            invariant
                self.wf(),
                lo <= hi <= self.keys@.len(),
                forall|i: int| 0 <= i < lo ==> bytes_lt(#[trigger] self.keys@[i]@, key@),
                forall|i: int|
                    hi <= i < self.keys@.len() ==> !bytes_lt(#[trigger] self.keys@[i]@, key@),
            decreases hi - lo,
        {
            let mid: usize = lo + (hi - lo) / 2;
            if bytes_less(self.keys[mid].as_slice(), key) {
                proof {
                    assert forall|i: int| 0 <= i < mid + 1 implies bytes_lt(
                        #[trigger] self.keys@[i]@,
                        key@,
                    ) by {
                        if i < mid {
                            lemma_bytes_lt_transitive(
                                self.keys@[i]@,
                                self.keys@[mid as int]@,
                                key@,
                            );
                        }
                    }
                }
                lo = mid + 1;
            } else {
                proof {
                    assert forall|i: int| mid <= i < self.keys@.len() implies !bytes_lt(
                        #[trigger] self.keys@[i]@,
                        key@,
                    ) by {
                        if i > mid && bytes_lt(self.keys@[i]@, key@) {
                            lemma_bytes_lt_transitive(
                                self.keys@[mid as int]@,
                                self.keys@[i]@,
                                key@,
                            );
                        }
                    }
                }
                hi = mid;
            }
        }
        lo
    }

    /// The key at `pos` is the one sought, if any is.
    fn found_at(&self, pos: usize, key: &[u8]) -> (r: bool)
        requires
            self.wf(),
            pos <= self.keys@.len(),
            forall|i: int| 0 <= i < pos ==> bytes_lt(#[trigger] self.keys@[i]@, key@),
            forall|i: int|
                pos <= i < self.keys@.len() ==> !bytes_lt(#[trigger] self.keys@[i]@, key@),
        ensures
            r == self.has(key@),
            r ==> pos < self.keys@.len() && self.keys@[pos as int]@ == key@,
            !r && pos < self.keys@.len() ==> bytes_lt(key@, self.keys@[pos as int]@),
    {
        proof {
            lemma_bytes_lt_irreflexive(key@);
            if self.has(key@) {
                let i = choose|i: int| 0 <= i < self.keys@.len() && (#[trigger] self.keys@[i])@
                    == key@;
                if pos < i {
                    assert(bytes_lt(self.keys@[pos as int]@, self.keys@[i]@));
                }
            }
        }
        if pos < self.keys.len() {
            proof {
                lemma_bytes_lt_total(self.keys@[pos as int]@, key@);
            }
            bytes_equal(self.keys[pos].as_slice(), key)
        } else {
            false
        }
    }

    /// Whether the set holds a key.
    pub fn contains(&self, key: &[u8]) -> (r: bool)
        requires
            self.wf(),
        ensures
            r == self.has(key@),
    {
        let pos: usize = self.seek(key);
        self.found_at(pos, key)
    }

    /// Puts a key in; says whether it was absent.
    pub fn insert(&mut self, key: Vec<u8>) -> (fresh: bool)
        requires
            old(self).wf(),
        ensures
            final(self).wf(),
            fresh == !old(self).has(key@),
            forall|k: Seq<u8>| #[trigger]
                final(self).has(k) <==> old(self).has(k) || k == key@,
    {
        let pos: usize = self.seek(key.as_slice());
        if self.found_at(pos, key.as_slice()) {
            return false;
        }
        let ghost before = self.keys@;
        let ghost added = key@;
        self.keys.insert(pos, key);
        proof {
            let now = self.keys@;
            assert forall|i: int, j: int| 0 <= i < j < now.len() implies bytes_lt(
                #[trigger] now[i]@,
                #[trigger] now[j]@,
            ) by {
                let a = if i < pos {
                    i
                } else {
                    i - 1
                };
                let b = if j < pos {
                    j
                } else {
                    j - 1
                };
                if i == pos {
                    if j > pos + 1 {
                        assert(bytes_lt(before[pos as int]@, before[b]@));
                        lemma_bytes_lt_transitive(added, before[pos as int]@, before[b]@);
                    }
                } else if j != pos {
                    assert(bytes_lt(before[a]@, before[b]@));
                } else {
                    assert(before[i] == now[i]);
                }
            }
            assert forall|k: Seq<u8>| #[trigger]
                holds_key(now, k) <==> holds_key(before, k) || k == added by {
                if holds_key(before, k) {
                    let i = choose|i: int| 0 <= i < before.len() && (#[trigger] before[i])@ == k;
                    if i < pos {
                        assert(now[i]@ == k);
                    } else {
                        assert(now[i + 1]@ == k);
                    }
                }
                assert(now[pos as int]@ == added);
                if holds_key(now, k) && k != added {
                    let i = choose|i: int| 0 <= i < now.len() && (#[trigger] now[i])@ == k;
                    if i < pos {
                        assert(before[i]@ == k);
                    } else {
                        assert(before[i - 1]@ == k);
                    }
                }
            }
        }
        true
    }

    /// Takes a key out; says whether it was there.
    pub fn remove(&mut self, key: &[u8]) -> (found: bool)
        requires
            old(self).wf(),
        ensures
            final(self).wf(),
            found == old(self).has(key@),
            forall|k: Seq<u8>| #[trigger]
                final(self).has(k) <==> old(self).has(k) && k != key@,
    {
        let pos: usize = self.seek(key);
        if !self.found_at(pos, key) {
            return false;
        }
        let ghost before = self.keys@;
        self.keys.remove(pos);
        proof {
            let now = self.keys@;
            assert forall|i: int, j: int| 0 <= i < j < now.len() implies bytes_lt(
                #[trigger] now[i]@,
                #[trigger] now[j]@,
            ) by {
                let a = if i < pos {
                    i
                } else {
                    i + 1
                };
                let b = if j < pos {
                    j
                } else {
                    j + 1
                };
                assert(bytes_lt(before[a]@, before[b]@));
            }
            assert forall|k: Seq<u8>| #[trigger]
                holds_key(now, k) <==> holds_key(before, k) && k != key@ by {
                if holds_key(before, k) && k != key@ {
                    let i = choose|i: int| 0 <= i < before.len() && (#[trigger] before[i])@ == k;
                    if i < pos {
                        assert(now[i]@ == k);
                    } else {
                        assert(now[i - 1]@ == k);
                    }
                }
                if holds_key(now, k) {
                    let i = choose|i: int| 0 <= i < now.len() && (#[trigger] now[i])@ == k;
                    let o = if i < pos {
                        i
                    } else {
                        i + 1
                    };
                    assert(before[o]@ == k);
                    lemma_bytes_lt_irreflexive(key@);
                    if o < pos {
                        assert(bytes_lt(before[o]@, before[pos as int]@));
                    } else {
                        assert(bytes_lt(before[pos as int]@, before[o]@));
                    }
                }
            }
        }
        true
    }

    /// The keys that begin with a prefix, in order: they are the ones at `lo..hi`.
    pub fn scan(&self, prefix: &[u8]) -> (r: (usize, usize))
        requires
            self.wf(),
        ensures
            r.0 <= r.1 <= self.keys@.len(),
            forall|i: int|
                0 <= i < self.keys@.len() ==> (r.0 <= i < r.1 <==> begins(
                    prefix@,
                    #[trigger] self.keys@[i]@,
                )),
    {
        let lo: usize = self.seek(prefix);
        let mut hi: usize = lo;
        while hi < self.keys.len() && starts(prefix, self.keys[hi].as_slice())
            invariant
                lo <= hi <= self.keys@.len(),
                forall|i: int| lo <= i < hi ==> begins(prefix@, #[trigger] self.keys@[i]@),
            ensures
                hi < self.keys@.len() ==> !begins(prefix@, self.keys@[hi as int]@),
            decreases self.keys@.len() - hi,
        {
            hi = hi + 1;
        }
        proof {
            assert forall|i: int| 0 <= i < self.keys@.len() implies (lo <= i < hi <==> begins(
                prefix@,
                #[trigger] self.keys@[i]@,
            )) by {
                if i < lo {
                    lemma_prefix_run(prefix@, self.keys@[i]@, prefix@);
                } else if i > hi {
                    lemma_prefix_run(prefix@, self.keys@[hi as int]@, self.keys@[i]@);
                    assert(bytes_lt(self.keys@[hi as int]@, self.keys@[i]@));
                }
            }
        }
        (lo, hi)
    }

    /// A copy.
    pub fn copy(&self) -> (s: KeySet)
        requires
            self.wf(),
        ensures
            s.wf(),
            forall|k: Seq<u8>| #[trigger] s.has(k) <==> self.has(k),
    {
        let mut keys: Vec<Vec<u8>> = Vec::new();
        let mut i: usize = 0;
        while i < self.keys.len()
            invariant
                i <= self.keys@.len(),
                keys@.len() == i,
                forall|j: int| 0 <= j < i ==> (#[trigger] keys@[j])@ == self.keys@[j]@,
            decreases self.keys@.len() - i,
        {
            let mut key: Vec<u8> = Vec::new();
            push_all(&mut key, self.keys[i].as_slice());
            assert(key@ =~= self.keys@[i as int]@);
            keys.push(key);
            i = i + 1;
        }
        let s: KeySet = KeySet { keys };
        proof {
            assert forall|k: Seq<u8>| #[trigger] s.has(k) <==> self.has(k) by {
                if s.has(k) {
                    let j = choose|j: int| 0 <= j < s.keys@.len() && (#[trigger] s.keys@[j])@ == k;
                    assert(self.keys@[j]@ == k);
                }
                if self.has(k) {
                    let j = choose|j: int|
                        0 <= j < self.keys@.len() && (#[trigger] self.keys@[j])@ == k;
                    assert(s.keys@[j]@ == k);
                }
            }
        }
        s
    }
}

/// Whether a key begins with a prefix.
fn starts(prefix: &[u8], key: &[u8]) -> (r: bool)
    ensures
        r == begins(prefix@, key@),
{
    if prefix.len() > key.len() {
        return false;
    }
    let head: &[u8] = vstd::slice::slice_subrange(key, 0, prefix.len());
    assert(head@ =~= key@.take(prefix@.len() as int));
    bytes_equal(prefix, head)
}

/// Whether two texts are the same.
pub fn same_text(a: &str, b: &str) -> (r: bool)
    ensures
        r == (a@ == b@),
{
    proof {
        vstd::utf8::encode_utf8_decode_utf8(a@);
        vstd::utf8::encode_utf8_decode_utf8(b@);
    }
    bytes_equal(a.as_bytes(), b.as_bytes())
}

/// The number of a name, which is its position.
pub open spec fn number_of_name(names: Seq<Seq<char>>, name: Seq<char>) -> Option<u32> {
    if names.contains(name) {
        Some(names.index_of(name) as u32)
    } else {
        None
    }
}

/// Names without repetition: a name that is not there is added at the end.
pub open spec fn with_name(names: Seq<Seq<char>>, name: Seq<char>) -> Seq<Seq<char>> {
    if names.contains(name) {
        names
    } else {
        names.push(name)
    }
}

/// Names and their numbers.
pub struct Names {
    pub names: Vec<String>,
}

impl View for Names {
    type V = Seq<Seq<char>>;

    open spec fn view(&self) -> Seq<Seq<char>> {
        Seq::new(self.names@.len(), |i: int| self.names@[i]@)
    }
}

impl Names {
    pub open spec fn wf(&self) -> bool {
        &&& self@.no_duplicates()
        &&& self@.len() <= u32::MAX
    }

    pub fn new() -> (r: Names)
        ensures
            r.wf(),
            r@ == Seq::<Seq<char>>::empty(),
    {
        let r: Names = Names { names: Vec::new() };
        assert(r@ =~= Seq::<Seq<char>>::empty());
        r
    }

    /// The number of a name.
    pub fn number(&self, name: &str) -> (r: Option<u32>)
        requires
            self.wf(),
        ensures
            r == number_of_name(self@, name@),
            r matches Some(i) ==> i < self@.len() && self@[i as int] == name@,
    {
        let mut i: usize = 0;
        while i < self.names.len()
            invariant
                self.wf(),
                i <= self.names@.len(),
                forall|j: int| 0 <= j < i ==> self@[j] != name@,
            decreases self.names@.len() - i,
        {
            if same_text(self.names[i].as_str(), name) {
                proof {
                    assert(self@[i as int] == name@);
                    assert(self@.contains(name@));
                    assert(self@.index_of(name@) == i);
                }
                return Some(i as u32);
            }
            i = i + 1;
        }
        None
    }

    /// The number of a name, which is added where it is not there.
    pub fn number_or_add(&mut self, name: &str) -> (r: u32)
        requires
            old(self).wf(),
            old(self)@.contains(name@) || old(self)@.len() < u32::MAX,
        ensures
            final(self).wf(),
            final(self)@ == with_name(old(self)@, name@),
            number_of_name(final(self)@, name@) == Some(r),
            r < final(self)@.len(),
            final(self)@[r as int] == name@,
    {
        match self.number(name) {
            Some(i) => i,
            None => {
                let ghost before = self@;
                let i: u32 = self.names.len() as u32;
                self.names.push(name.to_owned());
                proof {
                    assert(self@ =~= before.push(name@));
                    assert(self@.no_duplicates());
                    assert(self@[i as int] == name@);
                    assert(self@.index_of(name@) == i);
                }
                i
            },
        }
    }

    /// The name that a number stands for.
    pub fn name(&self, number: u32) -> (r: Option<String>)
        ensures
            r is Some <==> number < self@.len(),
            r matches Some(s) ==> s@ == self@[number as int],
    {
        if (number as usize) < self.names.len() {
            Some(self.names[number as usize].clone())
        } else {
            None
        }
    }

    /// A copy.
    pub fn copy(&self) -> (r: Names)
        ensures
            r@ == self@,
    {
        let mut names: Vec<String> = Vec::new();
        let mut i: usize = 0;
        while i < self.names.len()
            invariant
                i <= self.names@.len(),
                names@.len() == i,
                forall|j: int| 0 <= j < i ==> (#[trigger] names@[j])@ == self.names@[j]@,
            decreases self.names@.len() - i,
        {
            names.push(self.names[i].clone());
            i = i + 1;
        }
        let r: Names = Names { names };
        assert(r@ =~= self@);
        r
    }
}

/// A name that is added keeps the numbers of those that are there.
pub proof fn lemma_with_name(names: Seq<Seq<char>>, added: Seq<char>, name: Seq<char>)
    requires
        names.no_duplicates(),
        names.len() < u32::MAX,
    ensures
        with_name(names, added).no_duplicates(),
        number_of_name(names, name) is Some ==> number_of_name(with_name(names, added), name)
            == number_of_name(names, name),
        number_of_name(names, name) is None && name != added ==> number_of_name(
            with_name(names, added),
            name,
        ) is None,
{
    let now = with_name(names, added);
    if names.contains(name) {
        let i = names.index_of(name);
        assert(now[i] == name);
        assert(now.contains(name));
        let j = now.index_of(name);
        if j < names.len() {
            assert(names[j] == name);
        }
    }
    if now.contains(name) && name != added {
        let j = now.index_of(name);
        assert(names[j] == name);
    }
}

/// The properties of a node or an edge, each under a name of its own.
pub struct Props {
    pub entries: Vec<(String, PropValue)>,
}

/// Whether the entry at `i` has this name.
pub open spec fn named(entries: Seq<(String, PropValue)>, i: int, name: Seq<char>) -> bool {
    0 <= i < entries.len() && entries[i].0@ == name
}

impl View for Props {
    type V = Map<Seq<char>, Val>;

    open spec fn view(&self) -> Map<Seq<char>, Val> {
        Map::new(
            |name: Seq<char>| exists|i: int| named(self.entries@, i, name),
            |name: Seq<char>| self.entries@[choose|i: int| named(self.entries@, i, name)].1@,
        )
    }
}

impl Props {
    pub open spec fn wf(&self) -> bool {
        forall|i: int, j: int|
            0 <= i < j < self.entries@.len() ==> (#[trigger] self.entries@[i]).0@ != (
            #[trigger] self.entries@[j]).0@
    }

    /// The value at a position is the one under the name at that position.
    pub proof fn lemma_at(&self, i: int)
        requires
            self.wf(),
            0 <= i < self.entries@.len(),
        ensures
            self@.dom().contains(self.entries@[i].0@),
            self@[self.entries@[i].0@] == self.entries@[i].1@,
    {
        let name = self.entries@[i].0@;
        assert(named(self.entries@, i, name));
        let j = choose|j: int| named(self.entries@, j, name);
        assert(named(self.entries@, j, name));
    }

    pub fn new() -> (p: Props)
        ensures
            p.wf(),
            p@ == Map::<Seq<char>, Val>::empty(),
            p.entries@.len() == 0,
    {
        let p: Props = Props { entries: Vec::new() };
        assert(p@ =~= Map::<Seq<char>, Val>::empty());
        p
    }

    /// The position of a name.
    pub fn position(&self, name: &str) -> (r: Option<usize>)
        ensures
            r is Some <==> self@.dom().contains(name@),
            r matches Some(i) ==> i < self.entries@.len() && self.entries@[i as int].0@ == name@,
    {
        let mut i: usize = 0;
        while i < self.entries.len()
            invariant
                i <= self.entries@.len(),
                forall|j: int| 0 <= j < i ==> (#[trigger] self.entries@[j]).0@ != name@,
            decreases self.entries@.len() - i,
        {
            if same_text(self.entries[i].0.as_str(), name) {
                assert(named(self.entries@, i as int, name@));
                return Some(i);
            }
            i = i + 1;
        }
        None
    }

    /// The value under a name.
    pub fn get(&self, name: &str) -> (r: Option<&PropValue>)
        requires
            self.wf(),
        ensures
            r is Some <==> self@.dom().contains(name@),
            r matches Some(v) ==> v@ == self@[name@],
    {
        match self.position(name) {
            Some(i) => {
                proof {
                    self.lemma_at(i as int);
                }
                Some(&self.entries[i].1)
            },
            None => None,
        }
    }

    /// Puts a value under a name, in place of the one that was there.
    pub fn set(&mut self, name: &str, value: PropValue)
        requires
            old(self).wf(),
        ensures
            final(self).wf(),
            final(self)@ == old(self)@.insert(name@, value@),
            final(self).entries@.len() <= old(self).entries@.len() + 1,
    {
        let ghost before = *self;
        let ghost v = value@;
        let entry: (String, PropValue) = (name.to_owned(), value);
        let at: Ghost<int>;
        match self.position(name) {
            Some(i) => {
                self.entries.set(i, entry);
                at = Ghost(i as int);
            },
            None => {
                at = Ghost(self.entries@.len() as int);
                self.entries.push(entry);
            },
        }
        proof {
            let pos = at@;
            assert forall|i: int| 0 <= i < before.entries@.len() && i != pos implies
                self.entries@[i] == #[trigger] before.entries@[i] by {}
            assert(self.entries@[pos].0@ == name@);
            assert forall|i: int| 0 <= i < before.entries@.len() && i != pos implies (
            #[trigger] before.entries@[i]).0@ != name@ by {
                if before.entries@[i].0@ == name@ {
                    assert(named(before.entries@, i, name@));
                    assert(before@.dom().contains(name@));
                }
            }
            assert(self.wf());
            assert forall|x: Seq<char>| #[trigger]
                self@.dom().contains(x) <==> before@.dom().contains(x) || x == name@ by {
                if before@.dom().contains(x) {
                    let i = choose|i: int| named(before.entries@, i, x);
                    assert(named(before.entries@, i, x));
                    if i != pos {
                        assert(named(self.entries@, i, x));
                    } else {
                        assert(named(self.entries@, pos, x));
                    }
                }
                assert(named(self.entries@, pos, name@));
                if self@.dom().contains(x) && x != name@ {
                    let i = choose|i: int| named(self.entries@, i, x);
                    assert(named(self.entries@, i, x));
                    assert(i != pos);
                    assert(named(before.entries@, i, x));
                }
            }
            assert(self@ =~= before@.insert(name@, v)) by {
                assert forall|x: Seq<char>| self@.dom().contains(x) implies self@[x]
                    == before@.insert(name@, v)[x] by {
                    let i = choose|i: int| named(self.entries@, i, x);
                    assert(named(self.entries@, i, x));
                    self.lemma_at(i);
                    if i == pos {
                        assert(x == name@);
                    } else {
                        before.lemma_at(i);
                    }
                }
            }
        }
    }

    /// A copy.
    pub fn copy(&self) -> (p: Props)
        requires
            self.wf(),
        ensures
            p.wf(),
            p@ == self@,
    {
        let mut entries: Vec<(String, PropValue)> = Vec::new();
        let mut i: usize = 0;
        while i < self.entries.len()
            invariant
                i <= self.entries@.len(),
                entries@.len() == i,
                forall|j: int|
                    0 <= j < i ==> (#[trigger] entries@[j]).0@ == self.entries@[j].0@
                        && entries@[j].1@ == self.entries@[j].1@,
            decreases self.entries@.len() - i,
        {
            entries.push((self.entries[i].0.clone(), copy_value(&self.entries[i].1)));
            i = i + 1;
        }
        let p: Props = Props { entries };
        proof {
            assert(p.wf());
            assert forall|x: Seq<char>| #[trigger] p@.dom().contains(x) <==> self@.dom().contains(
                x,
            ) by {
                if p@.dom().contains(x) {
                    let j = choose|j: int| named(p.entries@, j, x);
                    assert(named(self.entries@, j, x));
                }
                if self@.dom().contains(x) {
                    let j = choose|j: int| named(self.entries@, j, x);
                    assert(named(p.entries@, j, x));
                }
            }
            assert(p@ =~= self@) by {
                assert forall|x: Seq<char>| p@.dom().contains(x) implies p@[x] == self@[x] by {
                    let j = choose|j: int| named(p.entries@, j, x);
                    p.lemma_at(j);
                    self.lemma_at(j);
                }
            }
        }
        p
    }
}

} // verus!
