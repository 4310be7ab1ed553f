//! The members of each label or relationship type, the index of their
//! properties, and the constraints on them.

use vstd::prelude::*;
use vstd::utf8::encode_utf8;

use crate::csr::ascending;
use crate::error::Error;
use crate::keys::{
    be_bytes, be_value, bound_bytes, build_pair_name, bytes_less, bytes_lt, composite_key,
    exact_prop_index_id, in_range, lemma_be_len, lemma_be_order, lemma_be_round_trip,
    lemma_byte_powers, lemma_bytes_lt_irreflexive, lemma_bytes_lt_prefix, lemma_bytes_lt_total,
    lemma_composite_key_order, lemma_exact_id, lemma_prop_key_injective, node_prop_index_key,
    pair_name, prefix_id, prop_key, push_all, push_be, read_be, str_in_range,
};
use crate::schema::PropKeyId;
use crate::sets::{byte_strings_in, insert_byte_string, new_byte_strings};
use crate::sums::bit;
use crate::tables::{
    begins, holds_key, lemma_with_name, named, number_of_name, with_name, KeySet, Names, Props,
};
use crate::value::{
    copy_value, encode_property_value, encoded_tag_family, encoding, family, identity, identity_bytes,
    lemma_identity, same_value, values_agree, PropValue, Val, ENCODED_NULL,
};

verus! {

/// The properties of each member of each scope, by the number of the scope and
/// the id of the member. A scope is a label or a relationship type.
pub type Holding = Map<(u32, u64), Map<Seq<char>, Val>>;

/// An index or constraint on one property of one scope.
#[derive(Clone, Copy, Debug, PartialEq, Eq, Structural)]
pub struct IndexDef {
    /// The number of the label or type.
    pub scope: u32,
    /// The number of the property's name.
    pub prop: PropKeyId,
    /// A plain index, a unique constraint or a required constraint.
    pub flags: u8,
}

/// The flags of an index that constrains nothing.
pub const PLAIN: u8 = 0;

/// The flags of a constraint that no two members have the same value.
pub const UNIQUE: u8 = 1;

/// The flags of a constraint that every member has a value.
pub const REQUIRED: u8 = 2;

/// The records that members are stored in.
pub trait Records {
    /// The properties of the record with this id.
    spec fn bag(&self, id: u64) -> Option<Map<Seq<char>, Val>>;

    spec fn sound(&self) -> bool;

    fn props_of(&self, id: u64) -> (r: Option<&Props>)
        requires
            self.sound(),
        ensures
            r is Some <==> self.bag(id) is Some,
            r matches Some(p) ==> p.wf() && Some(p@) == self.bag(id),
    ;
}

/// The records hold the properties of every member.
pub open spec fn recorded<R: Records>(records: R, h: Holding) -> bool {
    &&& records.sound()
    &&& forall|s: u32, id: u64| #[trigger]
        h.dom().contains((s, id)) ==> records.bag(id) == Some(h[(s, id)])
}

/// Whether an index or constraint is defined on a property of a scope.
pub open spec fn defined(defs: Seq<IndexDef>, s: u32, p: PropKeyId) -> bool {
    exists|i: int| 0 <= i < defs.len() && (#[trigger] defs[i]).scope == s && defs[i].prop == p
}

/// Whether a member has the value with encoding `e` in the property whose name
/// has the number `p`.
pub open spec fn has_encoded(
    h: Holding,
    keys: Seq<Seq<char>>,
    s: u32,
    p: PropKeyId,
    e: Seq<u8>,
    id: u64,
) -> bool {
    &&& h.dom().contains((s, id))
    &&& p < keys.len()
    &&& h[(s, id)].dom().contains(keys[p as int])
    &&& encoding(h[(s, id)][keys[p as int]]) == Some(e)
}

/// Whether a key is that of a member.
pub open spec fn is_member_key(key: Seq<u8>) -> bool {
    exists|s: u32, id: u64| key == #[trigger] prefix_id(s, id)
}

/// Whether a key is that of an index entry.
pub open spec fn is_entry_key(key: Seq<u8>) -> bool {
    exists|s: u32, p: PropKeyId, e: Seq<u8>, id: u64| key == #[trigger] prop_key(s, p, e, id)
}

/// The scopes of one kind, labels or relationship types, with their members.
/// With `auto` every value that can be indexed is; without it only those of
/// the properties that an index or constraint is defined on.
pub struct Catalog {
    pub scopes: Names,
    pub members: KeySet,
    pub index: KeySet,
    pub defs: Vec<IndexDef>,
    pub auto: bool,
}

pub(crate) proof fn lemma_null_encoding(v: Val)
    ensures
        encoding(v) == Some(seq![0u8]) <==> v is Null,
        encoding(v) matches Some(e) ==> e.len() > 0,
{
    if encoding(v) is Some {
        let e = encoding(v)->0;
        match v {
            Val::Str(s) => {
                assert(e[0] == 4);
            },
            Val::Null => {},
            Val::Bool(b) => {
                assert(e[0] != 0);
            },
            _ => {
                assert(e[0] == 3);
            },
        }
        assert(seq![0u8][0] == 0);
    }
}

/// A member key begins with its scope.
proof fn lemma_member_prefix(s: u32, t: u32, id: u64)
    ensures
        begins(be_bytes(s as nat, 4), prefix_id(t, id)) <==> s == t,
        prefix_id(t, id).len() == 12,
        be_value(prefix_id(t, id).subrange(4, 12)) == id,
{
    lemma_be_len(s as nat, 4);
    lemma_be_len(t as nat, 4);
    lemma_be_len(id as nat, 8);
    lemma_byte_powers();
    lemma_be_order(s as nat, t as nat, 4);
    lemma_be_round_trip(id as nat, 8);
    assert(prefix_id(t, id).take(4) =~= be_bytes(t as nat, 4));
    assert(prefix_id(t, id).subrange(4, 12) =~= be_bytes(id as nat, 8));
}

/// The bytes that the entries of one property of one scope begin with.
pub open spec fn entry_head(s: u32, p: PropKeyId) -> Seq<u8> {
    be_bytes(s as nat, 4) + be_bytes(p as nat, 4)
}

/// An entry key begins with its scope and property, and no other.
proof fn lemma_entry_prefix(s: u32, p: PropKeyId, t: u32, q: PropKeyId, e: Seq<u8>, id: u64)
    ensures
        begins(entry_head(s, p), prop_key(t, q, e, id)) <==> s == t && p == q,
        entry_head(s, p).len() == 8,
        prop_key(t, q, e, id).len() == 16 + e.len(),
        prop_key(t, q, e, id).subrange(8, 8 + e.len() as int) == e,
        be_value(prop_key(t, q, e, id).skip(8 + e.len() as int)) == id,
        begins(entry_head(t, q) + e, prop_key(t, q, e, id)),
{
    let key = prop_key(t, q, e, id);
    lemma_be_len(s as nat, 4);
    lemma_be_len(p as nat, 4);
    lemma_be_len(t as nat, 4);
    lemma_be_len(q as nat, 4);
    lemma_be_len(id as nat, 8);
    lemma_byte_powers();
    lemma_be_order(s as nat, t as nat, 4);
    lemma_be_order(p as nat, q as nat, 4);
    lemma_be_round_trip(id as nat, 8);
    assert(key.take(8) =~= entry_head(t, q));
    assert(entry_head(s, p).take(4) =~= be_bytes(s as nat, 4));
    assert(entry_head(t, q).take(4) =~= be_bytes(t as nat, 4));
    assert(entry_head(s, p).skip(4) =~= be_bytes(p as nat, 4));
    assert(entry_head(t, q).skip(4) =~= be_bytes(q as nat, 4));
    assert(key.subrange(8, 8 + e.len() as int) =~= e);
    assert(key.skip(8 + e.len() as int) =~= be_bytes(id as nat, 8));
    assert(key.take((entry_head(t, q) + e).len() as int) =~= entry_head(t, q) + e);
}

/// What begins with a longer prefix begins with the shorter one.
proof fn lemma_begins_less(a: Seq<u8>, b: Seq<u8>, key: Seq<u8>)
    requires
        begins(a + b, key),
    ensures
        begins(a, key),
{
    assert(key.take(a.len() as int) =~= key.take((a + b).len() as int).take(a.len() as int));
    assert((a + b).take(a.len() as int) =~= a);
}

/// Entries with one value sort by their ids.
proof fn lemma_entry_order(s: u32, p: PropKeyId, e: Seq<u8>, a: u64, b: u64)
    ensures
        bytes_lt(prop_key(s, p, e, a), prop_key(s, p, e, b)) <==> a < b,
{
    let head = entry_head(s, p) + e;
    lemma_byte_powers();
    lemma_be_order(a as nat, b as nat, 8);
    assert(prop_key(s, p, e, a) =~= head + be_bytes(a as nat, 8));
    assert(prop_key(s, p, e, b) =~= head + be_bytes(b as nat, 8));
    lemma_bytes_lt_prefix(head, be_bytes(a as nat, 8), be_bytes(b as nat, 8));
}

impl Catalog {
    /// Whether the member holds a value in an indexed property, and is to be
    /// found under it.
    pub open spec fn due(
        &self,
        h: Holding,
        keys: Seq<Seq<char>>,
        s: u32,
        p: PropKeyId,
        e: Seq<u8>,
        id: u64,
    ) -> bool {
        &&& has_encoded(h, keys, s, p, e, id)
        &&& e != seq![0u8]
        &&& self.auto || defined(self.defs@, s, p)
    }

    /// Whether a null value is entered in the index. Those that are there when
    /// an index is created are, and none later.
    pub open spec fn marked(&self, s: u32, p: PropKeyId, id: u64) -> bool {
        self.index.has(prop_key(s, p, seq![0u8], id))
    }

    pub open spec fn members_match(&self, h: Holding) -> bool {
        &&& self.members.wf()
        &&& forall|key: Seq<u8>| #[trigger] self.members.has(key) ==> is_member_key(key)
        &&& forall|s: u32, id: u64|
            #![trigger self.members.has(prefix_id(s, id))]
            #![trigger h.dom().contains((s, id))]
            self.members.has(prefix_id(s, id)) <==> h.dom().contains((s, id))
        &&& forall|s: u32, id: u64| #[trigger] h.dom().contains((s, id)) ==> s < self.scopes@.len()
    }

    pub open spec fn index_matches(&self, h: Holding, keys: Seq<Seq<char>>) -> bool {
        &&& self.index.wf()
        &&& forall|key: Seq<u8>| #[trigger] self.index.has(key) ==> is_entry_key(key)
        &&& forall|s: u32, p: PropKeyId, e: Seq<u8>, id: u64|
            #![trigger self.index.has(prop_key(s, p, e, id))]
            #![trigger has_encoded(h, keys, s, p, e, id)]
            e != seq![0u8] ==> (self.index.has(prop_key(s, p, e, id)) <==> self.due(
                h,
                keys,
                s,
                p,
                e,
                id,
            ))
        &&& forall|s: u32, p: PropKeyId, id: u64| #[trigger]
            self.marked(s, p, id) ==> has_encoded(h, keys, s, p, seq![0u8], id) && defined(
                self.defs@,
                s,
                p,
            )
        &&& self.auto ==> forall|s: u32, id: u64, name: Seq<char>|
            #![trigger h[(s, id)].dom().contains(name)]
            h.dom().contains((s, id)) && h[(s, id)].dom().contains(name)
                && h[(s, id)][name] !is Null && encoding(h[(s, id)][name]) is Some
                ==> keys.contains(name)
    }

    pub open spec fn defs_ok(&self, keys: Seq<Seq<char>>) -> bool {
        &&& forall|i: int|
            0 <= i < self.defs@.len() ==> (#[trigger] self.defs@[i]).scope < self.scopes@.len()
                && self.defs@[i].prop < keys.len()
        &&& forall|i: int, j: int|
            0 <= i < j < self.defs@.len() ==> (#[trigger] self.defs@[i]).scope != (
            #[trigger] self.defs@[j]).scope || self.defs@[i].prop != self.defs@[j].prop
    }

    /// The catalog describes this holding, with these property names.
    pub open spec fn matches(&self, h: Holding, keys: Seq<Seq<char>>) -> bool {
        &&& self.scopes.wf()
        &&& keys.no_duplicates()
        &&& self.members_match(h)
        &&& self.index_matches(h, keys)
        &&& self.defs_ok(keys)
    }

    pub fn new(auto: bool) -> (c: Catalog)
        ensures
            c.matches(Map::empty(), Seq::empty()),
            c.scopes@ == Seq::<Seq<char>>::empty(),
            c.defs@ == Seq::<IndexDef>::empty(),
            c.auto == auto,
            forall|s: u32, p: PropKeyId, id: u64| !#[trigger] c.marked(s, p, id),
    {
        Catalog {
            scopes: Names::new(),
            members: KeySet::new(),
            index: KeySet::new(),
            defs: Vec::new(),
            auto,
        }
    }

    /// Names that are added change nothing.
    pub proof fn lemma_more_names(&self, h: Holding, keys: Seq<Seq<char>>, more: Seq<Seq<char>>)
        requires
            self.matches(h, keys),
            keys.is_prefix_of(more),
            more.no_duplicates(),
        ensures
            self.matches(h, more),
    {
        assert forall|s: u32, p: PropKeyId, e: Seq<u8>, id: u64| #[trigger]
            self.due(h, more, s, p, e, id) <==> self.due(h, keys, s, p, e, id) by {
            if p < keys.len() {
                assert(keys[p as int] == more[p as int]);
            } else if self.due(h, more, s, p, e, id) {
                if self.auto {
                    let name = more[p as int];
                    lemma_null_encoding(h[(s, id)][name]);
                    assert(keys.contains(name));
                    let i = keys.index_of(name);
                    assert(more[i] == name);
                }
            }
        }
        assert forall|s: u32, p: PropKeyId, e: Seq<u8>, id: u64|
            #![trigger self.index.has(prop_key(s, p, e, id))]
            #![trigger has_encoded(h, more, s, p, e, id)]
            e != seq![0u8] implies (self.index.has(prop_key(s, p, e, id)) <==> self.due(
            h,
            more,
            s,
            p,
            e,
            id,
        )) by {
            assert(self.due(h, more, s, p, e, id) <==> self.due(h, keys, s, p, e, id));
            if self.due(h, keys, s, p, e, id) {
                assert(has_encoded(h, keys, s, p, e, id));
            }
        }
        assert forall|s: u32, p: PropKeyId, id: u64| #[trigger]
            self.marked(s, p, id) implies has_encoded(h, more, s, p, seq![0u8], id) by {
            assert(has_encoded(h, keys, s, p, seq![0u8], id));
            assert(keys[p as int] == more[p as int]);
        }
        if self.auto {
            assert forall|s: u32, id: u64, name: Seq<char>|
                #![trigger h[(s, id)].dom().contains(name)]
                h.dom().contains((s, id)) && h[(s, id)].dom().contains(name)
                    && h[(s, id)][name] !is Null && encoding(
                    h[(s, id)][name],
                ) is Some implies more.contains(name) by {
                let i = keys.index_of(name);
                assert(keys.contains(name));
                assert(more[i] == name);
            }
        }
    }

    /// Scopes that are added change nothing.
    pub proof fn lemma_more_scopes(&self, before: Catalog, h: Holding, keys: Seq<Seq<char>>)
        requires
            before.matches(h, keys),
            *self == (Catalog { scopes: self.scopes, ..before }),
            self.scopes.wf(),
            before.scopes@.len() <= self.scopes@.len(),
        ensures
            self.matches(h, keys),
    {
        assert forall|s: u32, id: u64| #[trigger] h.dom().contains((s, id)) implies s
            < self.scopes@.len() by {
            assert(s < before.scopes@.len());
        }
        assert(self.members_match(h));
        assert forall|s: u32, p: PropKeyId, e: Seq<u8>, id: u64|
            self.due(h, keys, s, p, e, id) == #[trigger] before.due(h, keys, s, p, e, id) by {}
        assert forall|s: u32, p: PropKeyId, id: u64|
            self.marked(s, p, id) == #[trigger] before.marked(s, p, id) by {}
        assert forall|s: u32, p: PropKeyId, id: u64| #[trigger]
            self.marked(s, p, id) implies has_encoded(h, keys, s, p, seq![0u8], id) && defined(
            self.defs@,
            s,
            p,
        ) by {
            assert(before.marked(s, p, id));
        }
        assert(self.index_matches(h, keys));
    }

    /// The ids of a scope's members, in ascending order.
    pub(crate) fn ids(&self, s: u32, h: Ghost<Holding>) -> (out: Vec<u64>)
        requires
            self.members_match(h@),
        ensures
            ascending(out@),
            forall|id: u64| #[trigger] out@.contains(id) <==> h@.dom().contains((s, id)),
    {
        let mut prefix: Vec<u8> = Vec::new();
        push_be(&mut prefix, s as u64, 4);
        assert(prefix@ =~= be_bytes(s as nat, 4));
        let (lo, hi): (usize, usize) = self.members.scan(prefix.as_slice());
        let mut out: Vec<u64> = Vec::new();
        let mut i: usize = lo;
        while i < hi
            invariant
                self.members_match(h@),
                prefix@ == be_bytes(s as nat, 4),
                lo <= i <= hi <= self.members.keys@.len(),
                forall|k: int|
                    0 <= k < self.members.keys@.len() ==> (lo <= k < hi <==> begins(
                        prefix@,
                        #[trigger] self.members.keys@[k]@,
                    )),
                out@.len() == i - lo,
                forall|k: int|
                    lo <= k < i ==> (#[trigger] self.members.keys@[k])@ == prefix_id(
                        s,
                        out@[k - lo],
                    ),
            decreases hi - i,
        {
            proof {
                let key = self.members.keys@[i as int]@;
                assert(self.members.has(key));
                let (t, id) = choose|t: u32, id: u64| key == #[trigger] prefix_id(t, id);
                lemma_member_prefix(s, t, id);
            }
            let id: u64 = read_be(self.members.keys[i].as_slice(), 4, 12);
            out.push(id);
            i = i + 1;
        }
        proof {
            assert forall|a: int, b: int| 0 <= a < b < out@.len() implies out@[a] < out@[b] by {
                let (x, y) = (self.members.keys@[lo + a]@, self.members.keys@[lo + b]@);
                assert(x == prefix_id(s, out@[lo + a - lo]));
                assert(y == prefix_id(s, out@[lo + b - lo]));
                lemma_composite_key_order(s, out@[a], s, out@[b]);
            }
            assert forall|id: u64| #[trigger] out@.contains(id) <==> h@.dom().contains(
                (s, id),
            ) by {
                if out@.contains(id) {
                    let a = out@.index_of(id);
                    assert(self.members.keys@[lo + a]@ == prefix_id(s, out@[lo + a - lo]));
                    assert(self.members.has(prefix_id(s, id)));
                }
                if h@.dom().contains((s, id)) {
                    assert(self.members.has(prefix_id(s, id)));
                    let k = choose|k: int|
                        0 <= k < self.members.keys@.len() && (#[trigger] self.members.keys@[k])@
                            == prefix_id(s, id);
                    lemma_member_prefix(s, s, id);
                    assert(lo <= k < hi);
                    assert(self.members.keys@[k]@ == prefix_id(s, out@[k - lo]));
                    lemma_composite_key_order(s, id, s, out@[k - lo]);
                    assert(out@[k - lo] == id);
                }
            }
        }
        out
    }

    /// Whether an id is a member of a scope.
    pub(crate) fn is_member(&self, s: u32, id: u64, h: Ghost<Holding>) -> (r: bool)
        requires
            self.members_match(h@),
        ensures
            r == h@.dom().contains((s, id)),
    {
        let key: [u8; 12] = composite_key(s, id);
        self.members.contains(key.as_slice())
    }

    /// Enters the values of a new member under every indexed property.
    fn enter_all(
        &mut self,
        keys: &mut Names,
        s: u32,
        id: u64,
        props: &Props,
    )
        requires
            old(self).auto,
            old(self).index.wf(),
            old(keys).wf(),
            roomy(old(keys)@, props.entries@),
            props.wf(),
            forall|key: Seq<u8>| #[trigger] old(self).index.has(key) ==> is_entry_key(key),
            forall|p: PropKeyId, e: Seq<u8>| !#[trigger] old(self).index.has(prop_key(s, p, e, id)),
        ensures
            *final(self) == (Catalog { index: final(self).index, ..*old(self) }),
            final(self).index.wf(),
            final(keys).wf(),
            names_grow(old(keys)@, final(keys)@, props@),
            forall|key: Seq<u8>| #[trigger] final(self).index.has(key) ==> is_entry_key(key),
            forall|t: u32, p: PropKeyId, e: Seq<u8>, x: u64|
                (t, x) != (s, id) ==> (#[trigger] final(self).index.has(prop_key(t, p, e, x))
                    <==> old(self).index.has(prop_key(t, p, e, x))),
            forall|p: PropKeyId, e: Seq<u8>| #[trigger]
                final(self).index.has(prop_key(s, p, e, id)) <==> {
                    &&& p < final(keys)@.len()
                    &&& props@.dom().contains(final(keys)@[p as int])
                    &&& props@[final(keys)@[p as int]] !is Null
                    &&& encoding(props@[final(keys)@[p as int]]) == Some(e)
                },
            forall|name: Seq<char>| #[trigger]
                props@.dom().contains(name) && props@[name] !is Null && encoding(
                    props@[name],
                ) is Some ==> final(keys)@.contains(name),
    {
        let ghost before = *self;
        let ghost first = keys@;
        let mut i: usize = 0;
        while i < props.entries.len()
            invariant
                i <= props.entries@.len(),
                props.wf(),
                *self == (Catalog { index: self.index, ..before }),
                self.index.wf(),
                keys.wf(),
                first.is_prefix_of(keys@),
                keys@.len() <= first.len() + i,
                forall|n: Seq<char>| #[trigger]
                    keys@.contains(n) ==> first.contains(n) || indexed_name(props@, n),
                roomy(first, props.entries@),
                forall|key: Seq<u8>| #[trigger] self.index.has(key) ==> is_entry_key(key),
                forall|t: u32, p: PropKeyId, e: Seq<u8>, x: u64|
                    (t, x) != (s, id) ==> (#[trigger] self.index.has(prop_key(t, p, e, x))
                        <==> before.index.has(prop_key(t, p, e, x))),
                forall|p: PropKeyId, e: Seq<u8>| #[trigger]
                    self.index.has(prop_key(s, p, e, id)) <==> entered(
                        props.entries@,
                        i as int,
                        keys@,
                        p,
                        e,
                    ),
                forall|j: int|
                    0 <= j < i && props.entries@[j].1@ !is Null && encoding(
                        (#[trigger] props.entries@[j]).1@,
                    ) is Some ==> keys@.contains(props.entries@[j].0@),
            decreases props.entries@.len() - i,
        {
            let name: &String = &props.entries[i].0;
            let value: &PropValue = &props.entries[i].1;
            let ghost old_index = self.index;
            let ghost old_keys = keys@;
            let mut added: bool = false;
            match value {
                PropValue::Null => {},
                _ => {
                    match encode_property_value(value) {
                        Some(e) => {
                            proof {
                                if first.len() + props.entries@.len() > u32::MAX {
                                    let k = first.index_of(props.entries@[i as int].0@);
                                    assert(first.contains(props.entries@[i as int].0@));
                                    assert(keys@[k] == name@);
                                }
                            }
                            let p: u32 = keys.number_or_add(name.as_str());
                            let key: Vec<u8> = node_prop_index_key(s, p, e.as_slice(), id);
                            let ghost built = key@;
                            self.index.insert(key);
                            proof {
                                assert(built == prop_key(s, p, e@, id));
                                props.lemma_at(i as int);
                                assert forall|n: Seq<char>| #[trigger]
                                    keys@.contains(n) implies first.contains(n) || indexed_name(
                                    props@,
                                    n,
                                ) by {
                                    let k = keys@.index_of(n);
                                    if k < old_keys.len() {
                                        assert(old_keys[k] == n);
                                        assert(old_keys.contains(n));
                                    } else {
                                        assert(n == name@);
                                    }
                                }
                                lemma_enter(
                                    props.entries@,
                                    i as int,
                                    old_keys,
                                    keys@,
                                    p,
                                    e@,
                                );
                                assert forall|q: PropKeyId, d: Seq<u8>| #[trigger]
                                    self.index.has(prop_key(s, q, d, id)) <==> entered(
                                        props.entries@,
                                        i + 1,
                                        keys@,
                                        q,
                                        d,
                                    ) by {
                                    if prop_key(s, q, d, id) == built {
                                        lemma_prop_key_injective(s, q, d, id, s, p, e@, id);
                                    }
                                    assert(old_index.has(prop_key(s, q, d, id)) <==> entered(
                                        props.entries@,
                                        i as int,
                                        old_keys,
                                        q,
                                        d,
                                    ));
                                }
                                assert forall|t: u32, q: PropKeyId, d: Seq<u8>, x: u64|
                                    (t, x) != (s, id) implies (#[trigger] self.index.has(
                                    prop_key(t, q, d, x),
                                ) <==> before.index.has(prop_key(t, q, d, x))) by {
                                    if prop_key(t, q, d, x) == built {
                                        lemma_prop_key_injective(t, q, d, x, s, p, e@, id);
                                    }
                                    assert(old_index.has(prop_key(t, q, d, x))
                                        <==> before.index.has(prop_key(t, q, d, x)));
                                }
                                assert forall|j: int|
                                    0 <= j < i + 1 && props.entries@[j].1@ !is Null && encoding(
                                        (#[trigger] props.entries@[j]).1@,
                                    ) is Some implies keys@.contains(props.entries@[j].0@) by {
                                    if j < i {
                                        let k = old_keys.index_of(props.entries@[j].0@);
                                        assert(old_keys.contains(props.entries@[j].0@));
                                        assert(keys@[k] == props.entries@[j].0@);
                                    } else {
                                        assert(keys@[p as int] == props.entries@[j].0@);
                                    }
                                }
                                assert forall|k: Seq<u8>| #[trigger]
                                    self.index.has(k) implies is_entry_key(k) by {
                                    if k == built {
                                        assert(is_entry_key(prop_key(s, p, e@, id)));
                                    } else {
                                        assert(old_index.has(k));
                                    }
                                }
                            }
                            added = true;
                        },
                        None => {},
                    }
                },
            }
            proof {
                if !added {
                    assert forall|q: PropKeyId, d: Seq<u8>|
                        entered(props.entries@, i as int, keys@, q, d) <==> #[trigger] entered(
                            props.entries@,
                            i + 1,
                            keys@,
                            q,
                            d,
                        ) by {
                        lemma_pass(props.entries@, i as int, keys@, q, d);
                    }
                }
            }
            i = i + 1;
        }
        proof {
            let m = props.entries@.len() as int;
            assert forall|p: PropKeyId, e: Seq<u8>| #[trigger]
                self.index.has(prop_key(s, p, e, id)) <==> {
                    &&& p < keys@.len()
                    &&& props@.dom().contains(keys@[p as int])
                    &&& props@[keys@[p as int]] !is Null
                    &&& encoding(props@[keys@[p as int]]) == Some(e)
                } by {
                if entered(props.entries@, m, keys@, p, e) {
                    let j = choose|j: int| enters(props.entries@, j, keys@, p, e) && 0 <= j < m;
                    props.lemma_at(j);
                }
                if p < keys@.len() && props@.dom().contains(keys@[p as int])
                    && props@[keys@[p as int]] !is Null && encoding(props@[keys@[p as int]])
                    == Some(e) {
                    let j = choose|j: int| named(props.entries@, j, keys@[p as int]);
                    props.lemma_at(j);
                    assert(enters(props.entries@, j, keys@, p, e));
                }
            }
            assert forall|name: Seq<char>| #[trigger]
                props@.dom().contains(name) && props@[name] !is Null && encoding(
                    props@[name],
                ) is Some implies keys@.contains(name) by {
                let j = choose|j: int| named(props.entries@, j, name);
                props.lemma_at(j);
                assert(props.entries@[j].0@ == name);
            }
        }
    }

    /// Enters the values of a new member under the properties that an index or
    /// constraint is defined on.
    fn enter_defined(&mut self, keys: &Names, s: u32, id: u64, props: &Props)
        requires
            old(self).index.wf(),
            old(self).defs_ok(keys@),
            props.wf(),
            forall|key: Seq<u8>| #[trigger] old(self).index.has(key) ==> is_entry_key(key),
            forall|p: PropKeyId, e: Seq<u8>| !#[trigger] old(self).index.has(prop_key(s, p, e, id)),
        ensures
            *final(self) == (Catalog { index: final(self).index, ..*old(self) }),
            final(self).index.wf(),
            forall|key: Seq<u8>| #[trigger] final(self).index.has(key) ==> is_entry_key(key),
            forall|t: u32, p: PropKeyId, e: Seq<u8>, x: u64|
                (t, x) != (s, id) ==> (#[trigger] final(self).index.has(prop_key(t, p, e, x))
                    <==> old(self).index.has(prop_key(t, p, e, x))),
            forall|p: PropKeyId, e: Seq<u8>| #[trigger]
                final(self).index.has(prop_key(s, p, e, id)) <==> {
                    &&& defined(old(self).defs@, s, p)
                    &&& p < keys@.len()
                    &&& props@.dom().contains(keys@[p as int])
                    &&& props@[keys@[p as int]] !is Null
                    &&& encoding(props@[keys@[p as int]]) == Some(e)
                },
    {
        let ghost before = *self;
        let mut i: usize = 0;
        while i < self.defs.len()
            invariant
                i <= self.defs@.len(),
                props.wf(),
                *self == (Catalog { index: self.index, ..before }),
                self.defs_ok(keys@),
                self.index.wf(),
                forall|key: Seq<u8>| #[trigger] self.index.has(key) ==> is_entry_key(key),
                forall|t: u32, p: PropKeyId, e: Seq<u8>, x: u64|
                    (t, x) != (s, id) ==> (#[trigger] self.index.has(prop_key(t, p, e, x))
                        <==> before.index.has(prop_key(t, p, e, x))),
                forall|p: PropKeyId, e: Seq<u8>| #[trigger]
                    self.index.has(prop_key(s, p, e, id)) <==> {
                        &&& defined(self.defs@.take(i as int), s, p)
                        &&& p < keys@.len()
                        &&& props@.dom().contains(keys@[p as int])
                        &&& props@[keys@[p as int]] !is Null
                        &&& encoding(props@[keys@[p as int]]) == Some(e)
                    },
            decreases self.defs@.len() - i,
        {
            let def: IndexDef = self.defs[i];
            let ghost old_index = self.index;
            proof {
                assert forall|p: PropKeyId|
                    defined(self.defs@.take(i + 1), s, p) <==> #[trigger] defined(
                        self.defs@.take(i as int),
                        s,
                        p,
                    ) || (def.scope == s && def.prop == p) by {
                    lemma_one_more_def(self.defs@, i as int, s, p);
                }
            }
            if def.scope == s {
                match props.get(keys.names[def.prop as usize].as_str()) {
                    Some(value) => {
                        assert(keys@[def.prop as int] == keys.names@[def.prop as int]@);
                        let null: bool = match value {
                            PropValue::Null => true,
                            _ => false,
                        };
                        match encode_property_value(value) {
                            Some(e) => {
                                if !null {
                                    let key: Vec<u8> = node_prop_index_key(
                                        s,
                                        def.prop,
                                        e.as_slice(),
                                        id,
                                    );
                                    let ghost built = key@;
                                    self.index.insert(key);
                                    proof {
                                        assert(built == prop_key(s, def.prop, e@, id));
                                        assert(is_entry_key(built));
                                        lemma_entries_apart(
                                            old_index,
                                            self.index,
                                            s,
                                            def.prop,
                                            e@,
                                            id,
                                        );
                                    }
                                }
                            },
                            None => {},
                        }
                    },
                    None => {
                        assert(keys@[def.prop as int] == keys.names@[def.prop as int]@);
                    },
                }
            }
            i = i + 1;
        }
        assert(self.defs@.take(i as int) =~= self.defs@);
    }
}

/// Whether a property has a value that goes into an index.
pub open spec fn indexed_name(props: Map<Seq<char>, Val>, name: Seq<char>) -> bool {
    props.dom().contains(name) && props[name] !is Null && encoding(props[name]) is Some
}

/// The names with those of the properties that go into an index, in some order.
pub open spec fn names_grow(
    before: Seq<Seq<char>>,
    after: Seq<Seq<char>>,
    props: Map<Seq<char>, Val>,
) -> bool {
    &&& before.is_prefix_of(after)
    &&& forall|name: Seq<char>| #[trigger]
        after.contains(name) <==> before.contains(name) || indexed_name(props, name)
}

/// There are numbers left for the names of these properties, or all that need
/// one have it.
pub open spec fn roomy(keys: Seq<Seq<char>>, entries: Seq<(String, PropValue)>) -> bool {
    ||| keys.len() + entries.len() <= u32::MAX
    ||| forall|j: int|
        0 <= j < entries.len() && entries[j].1@ !is Null && encoding((#[trigger] entries[j]).1@)
            is Some ==> keys.contains(entries[j].0@)
}

/// Whether the entry at `j` is entered under the name numbered `p` with the encoding `e`.
spec fn enters(
    entries: Seq<(String, PropValue)>,
    j: int,
    keys: Seq<Seq<char>>,
    p: PropKeyId,
    e: Seq<u8>,
) -> bool {
    &&& named(entries, j, keys[p as int])
    &&& entries[j].1@ !is Null
    &&& encoding(entries[j].1@) == Some(e)
}

/// Whether one of the first `i` entries is.
spec fn entered(
    entries: Seq<(String, PropValue)>,
    i: int,
    keys: Seq<Seq<char>>,
    p: PropKeyId,
    e: Seq<u8>,
) -> bool {
    p < keys.len() && exists|j: int| 0 <= j < i && #[trigger] enters(entries, j, keys, p, e)
}

proof fn lemma_pass(
    entries: Seq<(String, PropValue)>,
    i: int,
    keys: Seq<Seq<char>>,
    p: PropKeyId,
    e: Seq<u8>,
)
    requires
        0 <= i < entries.len(),
        entries[i].1@ is Null || encoding(entries[i].1@) is None,
    ensures
        entered(entries, i, keys, p, e) <==> entered(entries, i + 1, keys, p, e),
{
}

proof fn lemma_enter(
    entries: Seq<(String, PropValue)>,
    i: int,
    before: Seq<Seq<char>>,
    keys: Seq<Seq<char>>,
    p: PropKeyId,
    e: Seq<u8>,
)
    requires
        0 <= i < entries.len(),
        entries[i].1@ !is Null,
        encoding(entries[i].1@) == Some(e),
        before.no_duplicates(),
        keys == with_name(before, entries[i].0@),
        keys.no_duplicates(),
        p < keys.len(),
        keys[p as int] == entries[i].0@,
        forall|j: int|
            0 <= j < i && entries[j].1@ !is Null && encoding((#[trigger] entries[j]).1@) is Some
                ==> before.contains(entries[j].0@),
    ensures
        forall|q: PropKeyId, d: Seq<u8>| #[trigger]
            entered(entries, i + 1, keys, q, d) <==> entered(entries, i, before, q, d) || (q == p
                && d == e),
{
    assert forall|q: PropKeyId, d: Seq<u8>| #[trigger]
        entered(entries, i + 1, keys, q, d) <==> entered(entries, i, before, q, d) || (q == p
            && d == e) by {
        if entered(entries, i + 1, keys, q, d) {
            let j = choose|j: int| 0 <= j < i + 1 && #[trigger] enters(entries, j, keys, q, d);
            if j < i {
                let name = entries[j].0@;
                assert(before.contains(name));
                let k = before.index_of(name);
                assert(keys[k] == name);
                assert(k == q);
                assert(enters(entries, j, before, q, d));
            }
        }
        if entered(entries, i, before, q, d) {
            let j = choose|j: int| 0 <= j < i && #[trigger] enters(entries, j, before, q, d);
            assert(keys[q as int] == before[q as int]);
            assert(enters(entries, j, keys, q, d));
        }
        if q == p && d == e {
            assert(enters(entries, i, keys, q, d));
        }
    }
}

proof fn lemma_one_more_def(defs: Seq<IndexDef>, i: int, s: u32, p: PropKeyId)
    requires
        0 <= i < defs.len(),
    ensures
        defined(defs.take(i + 1), s, p) <==> defined(defs.take(i), s, p) || (defs[i].scope == s
            && defs[i].prop == p),
{
    let (a, b) = (defs.take(i), defs.take(i + 1));
    if defined(a, s, p) {
        let k = choose|k: int| 0 <= k < a.len() && (#[trigger] a[k]).scope == s && a[k].prop == p;
        assert(b[k] == a[k]);
    }
    if defined(b, s, p) {
        let k = choose|k: int| 0 <= k < b.len() && (#[trigger] b[k]).scope == s && b[k].prop == p;
        if k < i {
            assert(b[k] == a[k]);
        }
    }
    assert(b[i] == defs[i]);
}

/// An entry that is added differs from every other one.
proof fn lemma_entries_apart(
    before: KeySet,
    now: KeySet,
    s: u32,
    p: PropKeyId,
    e: Seq<u8>,
    id: u64,
)
    requires
        forall|k: Seq<u8>| #[trigger]
            now.has(k) <==> before.has(k) || k == prop_key(s, p, e, id),
    ensures
        forall|t: u32, q: PropKeyId, d: Seq<u8>, x: u64| #[trigger]
            now.has(prop_key(t, q, d, x)) <==> before.has(prop_key(t, q, d, x)) || (t == s && q == p
                && d == e && x == id),
{
    assert forall|t: u32, q: PropKeyId, d: Seq<u8>, x: u64| #[trigger]
        now.has(prop_key(t, q, d, x)) <==> before.has(prop_key(t, q, d, x)) || (t == s && q == p
            && d == e && x == id) by {
        if prop_key(t, q, d, x) == prop_key(s, p, e, id) {
            lemma_prop_key_injective(t, q, d, x, s, p, e, id);
        }
    }
}

impl Catalog {
    /// Adds a member to a scope.
    pub(crate) fn enroll(
        &mut self,
        keys: &mut Names,
        s: u32,
        id: u64,
        props: &Props,
        h: Ghost<Holding>,
    )
        requires
            old(self).matches(h@, old(keys)@),
            old(keys).wf(),
            old(self).auto ==> roomy(old(keys)@, props.entries@),
            props.wf(),
            !h@.dom().contains((s, id)),
            s < old(self).scopes@.len(),
        ensures
            final(self).matches(h@.insert((s, id), props@), final(keys)@),
            final(keys).wf(),
            old(self).auto ==> names_grow(old(keys)@, final(keys)@, props@),
            !old(self).auto ==> final(keys)@ == old(keys)@,
            old(self).auto ==> roomy(final(keys)@, props.entries@),
            final(self).scopes == old(self).scopes,
            final(self).defs == old(self).defs,
            final(self).auto == old(self).auto,
            forall|t: u32, p: PropKeyId, x: u64| #[trigger]
                final(self).marked(t, p, x) == old(self).marked(t, p, x),
    {
        let ghost before = *self;
        let ghost first = keys@;
        let ghost h0 = h@;
        let ghost h1 = h0.insert((s, id), props@);
        let key: [u8; 12] = composite_key(s, id);
        let mut member: Vec<u8> = Vec::new();
        push_all(&mut member, key.as_slice());
        proof {
            assert(member@ =~= prefix_id(s, id));
            assert forall|p: PropKeyId, e: Seq<u8>| !#[trigger] self.index.has(
                prop_key(s, p, e, id),
            ) by {
                if e == seq![0u8] {
                    assert(!self.marked(s, p, id));
                }
            }
        }
        self.members.insert(member);
        if self.auto {
            self.enter_all(keys, s, id, props);
        } else {
            self.enter_defined(keys, s, id, props);
        }
        proof {
            let names = keys@;
            before.lemma_more_names(h0, first, names);
            assert forall|t: u32, x: u64|
                #![trigger self.members.has(prefix_id(t, x))]
                #![trigger h1.dom().contains((t, x))]
                self.members.has(prefix_id(t, x)) <==> h1.dom().contains((t, x)) by {
                lemma_composite_key_order(t, x, s, id);
                assert(before.members.has(prefix_id(t, x)) <==> h0.dom().contains((t, x)));
            }
            assert forall|k: Seq<u8>| #[trigger] self.members.has(k) implies is_member_key(k) by {
                if k == prefix_id(s, id) {
                } else {
                    assert(before.members.has(k));
                }
            }
            assert(self.members_match(h1)) by {
                assert forall|t: u32, x: u64| #[trigger] h1.dom().contains((t, x)) implies t
                    < self.scopes@.len() by {
                    if (t, x) != (s, id) {
                        assert(h0.dom().contains((t, x)));
                    }
                }
            }
            assert forall|t: u32, p: PropKeyId, e: Seq<u8>, x: u64|
                #![trigger self.index.has(prop_key(t, p, e, x))]
                #![trigger has_encoded(h1, names, t, p, e, x)]
                e != seq![0u8] implies (self.index.has(prop_key(t, p, e, x)) <==> self.due(
                h1,
                names,
                t,
                p,
                e,
                x,
            )) by {
                if (t, x) != (s, id) {
                    assert(before.index.has(prop_key(t, p, e, x)) <==> before.due(
                        h0,
                        names,
                        t,
                        p,
                        e,
                        x,
                    ));
                    assert(has_encoded(h0, names, t, p, e, x) == has_encoded(
                        h1,
                        names,
                        t,
                        p,
                        e,
                        x,
                    ));
                } else {
                    if p < names.len() && props@.dom().contains(names[p as int]) {
                        lemma_null_encoding(props@[names[p as int]]);
                    }
                }
            }
            assert forall|t: u32, p: PropKeyId, x: u64| #[trigger]
                self.marked(t, p, x) == before.marked(t, p, x) by {
                let zero = seq![0u8];
                if (t, x) == (s, id) {
                    assert(!before.index.has(prop_key(s, p, zero, id)));
                    if p < names.len() && props@.dom().contains(names[p as int]) {
                        lemma_null_encoding(props@[names[p as int]]);
                    }
                    assert(!self.index.has(prop_key(s, p, zero, id)));
                } else {
                    assert(self.index.has(prop_key(t, p, zero, x)) <==> before.index.has(
                        prop_key(t, p, zero, x),
                    ));
                }
            }
            assert forall|t: u32, p: PropKeyId, x: u64| #[trigger]
                self.marked(t, p, x) implies has_encoded(h1, names, t, p, seq![0u8], x) && defined(
                self.defs@,
                t,
                p,
            ) by {
                assert(before.marked(t, p, x));
                assert((t, x) != (s, id));
            }
            if self.auto {
                assert forall|t: u32, x: u64, name: Seq<char>|
                    #![trigger h1[(t, x)].dom().contains(name)]
                    h1.dom().contains((t, x)) && h1[(t, x)].dom().contains(name)
                        && h1[(t, x)][name] !is Null && encoding(
                        h1[(t, x)][name],
                    ) is Some implies names.contains(name) by {
                    if (t, x) != (s, id) {
                        assert(h0[(t, x)].dom().contains(name));
                    } else {
                        assert(props@.dom().contains(name));
                    }
                }
                assert forall|j: int|
                    0 <= j < props.entries@.len() && props.entries@[j].1@ !is Null && encoding(
                        (#[trigger] props.entries@[j]).1@,
                    ) is Some implies names.contains(props.entries@[j].0@) by {
                    props.lemma_at(j);
                    assert(props@.dom().contains(props.entries@[j].0@));
                }
            }
        }
    }

    /// Takes the values of a member out of the index.
    fn leave_all(&mut self, keys: &Names, s: u32, id: u64, props: &Props)
        requires
            old(self).index.wf(),
            old(self).defs_ok(keys@),
            keys.wf(),
            props.wf(),
        ensures
            *final(self) == (Catalog { index: final(self).index, ..*old(self) }),
            final(self).index.wf(),
            forall|k: Seq<u8>| #[trigger]
                final(self).index.has(k) ==> old(self).index.has(k),
            forall|t: u32, p: PropKeyId, e: Seq<u8>, x: u64|
                (t, x) != (s, id) ==> (#[trigger] final(self).index.has(prop_key(t, p, e, x))
                    <==> old(self).index.has(prop_key(t, p, e, x))),
            forall|p: PropKeyId, e: Seq<u8>|
                p < keys@.len() && props@.dom().contains(keys@[p as int]) && encoding(
                    props@[keys@[p as int]],
                ) == Some(e) && (defined(old(self).defs@, s, p) || (old(self).auto
                    && props@[keys@[p as int]] !is Null)) ==> !#[trigger] final(self).index.has(
                    prop_key(s, p, e, id),
                ),
    {
        let ghost before = *self;
        let mut i: usize = 0;
        while i < self.defs.len()
            invariant
                i <= self.defs@.len(),
                props.wf(),
                *self == (Catalog { index: self.index, ..before }),
                self.defs_ok(keys@),
                self.index.wf(),
                forall|k: Seq<u8>| #[trigger] self.index.has(k) ==> before.index.has(k),
                forall|t: u32, p: PropKeyId, e: Seq<u8>, x: u64|
                    (t, x) != (s, id) ==> (#[trigger] self.index.has(prop_key(t, p, e, x))
                        <==> before.index.has(prop_key(t, p, e, x))),
                forall|p: PropKeyId, e: Seq<u8>|
                    p < keys@.len() && props@.dom().contains(keys@[p as int]) && encoding(
                        props@[keys@[p as int]],
                    ) == Some(e) && defined(self.defs@.take(i as int), s, p)
                        ==> !#[trigger] self.index.has(prop_key(s, p, e, id)),
            decreases self.defs@.len() - i,
        {
            let def: IndexDef = self.defs[i];
            let ghost old_index = self.index;
            proof {
                assert forall|p: PropKeyId| #[trigger]
                    defined(self.defs@.take(i + 1), s, p) <==> defined(
                        self.defs@.take(i as int),
                        s,
                        p,
                    ) || (def.scope == s && def.prop == p) by {
                    lemma_one_more_def(self.defs@, i as int, s, p);
                }
            }
            if def.scope == s {
                assert(keys@[def.prop as int] == keys.names@[def.prop as int]@);
                match props.get(keys.names[def.prop as usize].as_str()) {
                    Some(value) => {
                        match encode_property_value(value) {
                            Some(e) => {
                                let key: Vec<u8> = node_prop_index_key(
                                    s,
                                    def.prop,
                                    e.as_slice(),
                                    id,
                                );
                                self.index.remove(key.as_slice());
                                proof {
                                    lemma_entry_gone(
                                        old_index,
                                        self.index,
                                        s,
                                        def.prop,
                                        e@,
                                        id,
                                    );
                                }
                            },
                            None => {},
                        }
                    },
                    None => {},
                }
            }
            i = i + 1;
        }
        assert(self.defs@.take(i as int) =~= self.defs@);
        if self.auto {
            let mut j: usize = 0;
            while j < props.entries.len()
                invariant
                    j <= props.entries@.len(),
                    props.wf(),
                    keys.wf(),
                    *self == (Catalog { index: self.index, ..before }),
                    self.index.wf(),
                    forall|k: Seq<u8>| #[trigger] self.index.has(k) ==> before.index.has(k),
                    forall|t: u32, p: PropKeyId, e: Seq<u8>, x: u64|
                        (t, x) != (s, id) ==> (#[trigger] self.index.has(prop_key(t, p, e, x))
                            <==> before.index.has(prop_key(t, p, e, x))),
                    forall|p: PropKeyId, e: Seq<u8>|
                        p < keys@.len() && props@.dom().contains(keys@[p as int]) && encoding(
                            props@[keys@[p as int]],
                        ) == Some(e) && defined(self.defs@, s, p)
                            ==> !#[trigger] self.index.has(prop_key(s, p, e, id)),
                    forall|p: PropKeyId, e: Seq<u8>|
                        entered(props.entries@, j as int, keys@, p, e)
                            ==> !#[trigger] self.index.has(prop_key(s, p, e, id)),
                decreases props.entries@.len() - j,
            {
                let value: &PropValue = &props.entries[j].1;
                let ghost old_index = self.index;
                let null: bool = match value {
                    PropValue::Null => true,
                    _ => false,
                };
                let mut hit: Ghost<Option<(PropKeyId, Seq<u8>)>> = Ghost(None);
                if !null {
                    match encode_property_value(value) {
                        Some(e) => {
                            match keys.number(props.entries[j].0.as_str()) {
                                Some(p) => {
                                    let key: Vec<u8> = node_prop_index_key(
                                        s,
                                        p,
                                        e.as_slice(),
                                        id,
                                    );
                                    self.index.remove(key.as_slice());
                                    hit = Ghost(Some((p, e@)));
                                    proof {
                                        lemma_entry_gone(old_index, self.index, s, p, e@, id);
                                    }
                                },
                                None => {},
                            }
                        },
                        None => {},
                    }
                }
                proof {
                    assert forall|p: PropKeyId, e: Seq<u8>|
                        entered(props.entries@, j + 1, keys@, p, e) implies !#[trigger] self.index.has(
                        prop_key(s, p, e, id),
                    ) by {
                        let k = choose|k: int|
                            0 <= k < j + 1 && #[trigger] enters(props.entries@, k, keys@, p, e);
                        if k < j {
                            assert(entered(props.entries@, j as int, keys@, p, e));
                            assert(!old_index.has(prop_key(s, p, e, id)));
                        } else {
                            assert(keys@[p as int] == props.entries@[j as int].0@);
                            assert(keys@.contains(props.entries@[j as int].0@));
                            assert(hit@ == Some((p, e)));
                        }
                    }
                }
                j = j + 1;
            }
            proof {
                let m = props.entries@.len() as int;
                assert forall|p: PropKeyId, e: Seq<u8>|
                    p < keys@.len() && props@.dom().contains(keys@[p as int]) && encoding(
                        props@[keys@[p as int]],
                    ) == Some(e) && props@[keys@[p as int]] !is Null implies !#[trigger] self.index.has(
                    prop_key(s, p, e, id),
                ) by {
                    let k = choose|k: int| named(props.entries@, k, keys@[p as int]);
                    props.lemma_at(k);
                    assert(enters(props.entries@, k, keys@, p, e));
                    assert(entered(props.entries@, m, keys@, p, e));
                }
            }
        }
    }

    /// Removes a member from a scope, with its entries in the index.
    pub(crate) fn dismiss(
        &mut self,
        keys: &Names,
        s: u32,
        id: u64,
        props: &Props,
        h: Ghost<Holding>,
    )
        requires
            old(self).matches(h@, keys@),
            keys.wf(),
            props.wf(),
            h@.dom().contains((s, id)),
            h@[(s, id)] == props@,
        ensures
            final(self).matches(h@.remove((s, id)), keys@),
            final(self).scopes == old(self).scopes,
            final(self).defs == old(self).defs,
            final(self).auto == old(self).auto,
            forall|t: u32, p: PropKeyId, x: u64| #[trigger]
                final(self).marked(t, p, x) == (old(self).marked(t, p, x) && (t, x) != (s, id)),
    {
        let ghost before = *self;
        let ghost h0 = h@;
        let ghost h1 = h0.remove((s, id));
        let ghost names = keys@;
        self.leave_all(keys, s, id, props);
        let key: [u8; 12] = composite_key(s, id);
        self.members.remove(key.as_slice());
        proof {
            assert forall|t: u32, x: u64|
                #![trigger self.members.has(prefix_id(t, x))]
                #![trigger h1.dom().contains((t, x))]
                self.members.has(prefix_id(t, x)) <==> h1.dom().contains((t, x)) by {
                lemma_composite_key_order(t, x, s, id);
                assert(before.members.has(prefix_id(t, x)) <==> h0.dom().contains((t, x)));
            }
            assert forall|k: Seq<u8>| #[trigger] self.members.has(k) implies is_member_key(k) by {
                assert(before.members.has(k));
            }
            assert(self.members_match(h1)) by {
                assert forall|t: u32, x: u64| #[trigger] h1.dom().contains((t, x)) implies t
                    < self.scopes@.len() by {
                    assert(h0.dom().contains((t, x)));
                }
            }
            assert forall|p: PropKeyId, e: Seq<u8>| !#[trigger] self.index.has(
                prop_key(s, p, e, id),
            ) by {
                if self.index.has(prop_key(s, p, e, id)) {
                    assert(before.index.has(prop_key(s, p, e, id)));
                    if e == seq![0u8] {
                        assert(before.marked(s, p, id));
                        assert(has_encoded(h0, names, s, p, e, id));
                    } else {
                        assert(before.due(h0, names, s, p, e, id));
                        lemma_null_encoding(props@[names[p as int]]);
                    }
                }
            }
            assert forall|t: u32, p: PropKeyId, e: Seq<u8>, x: u64|
                #![trigger self.index.has(prop_key(t, p, e, x))]
                #![trigger has_encoded(h1, names, t, p, e, x)]
                e != seq![0u8] implies (self.index.has(prop_key(t, p, e, x)) <==> self.due(
                h1,
                names,
                t,
                p,
                e,
                x,
            )) by {
                if (t, x) != (s, id) {
                    assert(before.index.has(prop_key(t, p, e, x)) <==> before.due(
                        h0,
                        names,
                        t,
                        p,
                        e,
                        x,
                    ));
                    assert(has_encoded(h0, names, t, p, e, x) == has_encoded(
                        h1,
                        names,
                        t,
                        p,
                        e,
                        x,
                    ));
                }
            }
            assert forall|t: u32, p: PropKeyId, x: u64| #[trigger]
                self.marked(t, p, x) == (before.marked(t, p, x) && (t, x) != (s, id)) by {
                let zero = seq![0u8];
                if (t, x) == (s, id) {
                    assert(!self.index.has(prop_key(s, p, zero, id)));
                } else {
                    assert(self.index.has(prop_key(t, p, zero, x)) <==> before.index.has(
                        prop_key(t, p, zero, x),
                    ));
                }
            }
            assert forall|t: u32, p: PropKeyId, x: u64| #[trigger]
                self.marked(t, p, x) implies has_encoded(h1, names, t, p, seq![0u8], x) && defined(
                self.defs@,
                t,
                p,
            ) by {
                assert(before.marked(t, p, x));
            }
            if self.auto {
                assert forall|t: u32, x: u64, name: Seq<char>|
                    #![trigger h1[(t, x)].dom().contains(name)]
                    h1.dom().contains((t, x)) && h1[(t, x)].dom().contains(name)
                        && h1[(t, x)][name] !is Null && encoding(
                        h1[(t, x)][name],
                    ) is Some implies names.contains(name) by {
                    assert(h0[(t, x)].dom().contains(name));
                }
            }
        }
    }
}

/// An entry that is taken out differs from every other one.
proof fn lemma_entry_gone(before: KeySet, now: KeySet, s: u32, p: PropKeyId, e: Seq<u8>, id: u64)
    requires
        forall|k: Seq<u8>| #[trigger]
            now.has(k) <==> before.has(k) && k != prop_key(s, p, e, id),
    ensures
        forall|t: u32, q: PropKeyId, d: Seq<u8>, x: u64| #[trigger]
            now.has(prop_key(t, q, d, x)) <==> before.has(prop_key(t, q, d, x)) && !(t == s && q
                == p && d == e && x == id),
{
    assert forall|t: u32, q: PropKeyId, d: Seq<u8>, x: u64| #[trigger]
        now.has(prop_key(t, q, d, x)) <==> before.has(prop_key(t, q, d, x)) && !(t == s && q == p
            && d == e && x == id) by {
        if prop_key(t, q, d, x) == prop_key(s, p, e, id) {
            lemma_prop_key_injective(t, q, d, x, s, p, e, id);
        }
    }
}

/// The error for a member of a scope whose properties break a constraint.
pub open spec fn reports(
    e: Error,
    scope: Seq<char>,
    property: Seq<char>,
    flags: u8,
    props: Map<Seq<char>, Val>,
) -> bool {
    match e {
        Error::RequiredConstraintViolation { scope: a, property: b } => flags == 2 && a@ == scope
            && b@ == property,
        Error::UniqueConstraintViolation { scope: a, property: b, value } => flags == 1 && a@
            == scope && b@ == property && value@ == props[property],
        _ => false,
    }
}

/// Whether a value is missing or null.
pub open spec fn lacks(props: Map<Seq<char>, Val>, name: Seq<char>) -> bool {
    !props.dom().contains(name) || props[name] is Null
}

/// Whether a member of a scope has the value `v` in a property.
pub open spec fn has_value(h: Holding, s: u32, id: u64, name: Seq<char>, v: Val) -> bool {
    &&& h.dom().contains((s, id))
    &&& h[(s, id)].dom().contains(name)
    &&& same_value(h[(s, id)][name], v)
}

/// Whether a member with these properties would break a constraint on `name`.
pub open spec fn breaks(
    h: Holding,
    s: u32,
    id: u64,
    props: Map<Seq<char>, Val>,
    name: Seq<char>,
    flags: u8,
) -> bool {
    ||| flags == 2 && lacks(props, name)
    ||| flags == 1 && !lacks(props, name) && exists|x: u64|
        x != id && #[trigger] has_value(h, s, x, name, props[name])
}

impl Catalog {
    /// Whether a lookup of `v` finds a member: it has the same value, and the
    /// value is indexed or too long to be.
    pub open spec fn finds(
        &self,
        h: Holding,
        keys: Seq<Seq<char>>,
        s: u32,
        name: Seq<char>,
        v: Val,
        id: u64,
    ) -> bool {
        &&& has_value(h, s, id, name, v)
        &&& encoding(v) is Some && v !is Null ==> self.auto || (number_of_name(
            keys,
            name,
        ) matches Some(p) && defined(self.defs@, s, p))
        &&& v is Null ==> (number_of_name(keys, name) matches Some(p) && self.marked(s, p, id))
    }

    /// Whether the constraint at `i` is one on the scope `s` that the member breaks.
    pub open spec fn broken_at(
        &self,
        h: Holding,
        keys: Seq<Seq<char>>,
        s: u32,
        id: u64,
        props: Map<Seq<char>, Val>,
        i: int,
    ) -> bool {
        &&& self.defs@[i].scope == s
        &&& breaks(h, s, id, props, keys[self.defs@[i].prop as int], self.defs@[i].flags)
    }

    /// The members of a scope that have a value, in ascending order of their ids.
    pub(crate) fn lookup<R: Records>(
        &self,
        records: &R,
        keys: &Names,
        s: u32,
        name: &str,
        v: &PropValue,
        h: Ghost<Holding>,
    ) -> (out: Vec<u64>)
        requires
            self.matches(h@, keys@),
            keys.wf(),
            recorded(*records, h@),
        ensures
            ascending(out@),
            forall|id: u64| #[trigger]
                out@.contains(id) <==> self.finds(h@, keys@, s, name@, v@, id),
    {
        proof {
            lemma_null_encoding(v@);
        }
        match encode_property_value(v) {
            None => self.scan_for_value(records, s, name, v, h),
            Some(e) => {
                match keys.number(name) {
                    None => {
                        proof {
                            assert forall|id: u64| !#[trigger] self.finds(
                                h@,
                                keys@,
                                s,
                                name@,
                                v@,
                                id,
                            ) by {
                                if has_value(h@, s, id, name@, v@) {
                                    lemma_null_encoding(h@[(s, id)][name@]);
                                }
                            }
                        }
                        Vec::new()
                    },
                    Some(p) => {
                        let out: Vec<u64> = self.entries_of(s, p, e.as_slice());
                        proof {
                            assert forall|id: u64| #[trigger]
                                out@.contains(id) <==> self.finds(h@, keys@, s, name@, v@, id) by {
                                assert(out@.contains(id) <==> self.index.has(
                                    prop_key(s, p, e@, id),
                                ));
                                if has_value(h@, s, id, name@, v@) {
                                    lemma_null_encoding(h@[(s, id)][name@]);
                                    assert(has_encoded(h@, keys@, s, p, e@, id));
                                }
                                if v@ is Null {
                                    assert(self.marked(s, p, id) == self.index.has(
                                        prop_key(s, p, e@, id),
                                    ));
                                } else {
                                    assert(self.index.has(prop_key(s, p, e@, id)) <==> self.due(
                                        h@,
                                        keys@,
                                        s,
                                        p,
                                        e@,
                                        id,
                                    ));
                                }
                            }
                        }
                        out
                    },
                }
            },
        }
    }

    /// The ids of the entries with exactly one encoded value.
    fn entries_of(&self, s: u32, p: PropKeyId, e: &[u8]) -> (out: Vec<u64>)
        requires
            self.index.wf(),
            forall|key: Seq<u8>| #[trigger] self.index.has(key) ==> is_entry_key(key),
        ensures
            ascending(out@),
            forall|id: u64| #[trigger]
                out@.contains(id) <==> self.index.has(prop_key(s, p, e@, id)),
    {
        let mut prefix: Vec<u8> = Vec::new();
        push_be(&mut prefix, s as u64, 4);
        push_be(&mut prefix, p as u64, 4);
        push_all(&mut prefix, e);
        assert(prefix@ =~= entry_head(s, p) + e@);
        let (lo, hi): (usize, usize) = self.index.scan(prefix.as_slice());
        let mut out: Vec<u64> = Vec::new();
        let mut i: usize = lo;
        let ghost ks = self.index.keys@;
        while i < hi
            invariant
                self.index.wf(),
                ks == self.index.keys@,
                forall|key: Seq<u8>| #[trigger] self.index.has(key) ==> is_entry_key(key),
                prefix@ == entry_head(s, p) + e@,
                lo <= i <= hi <= ks.len(),
                forall|k: int|
                    0 <= k < ks.len() ==> (lo <= k < hi <==> begins(prefix@, #[trigger] ks[k]@)),
                ascending(out@),
                forall|j: int|
                    0 <= j < out@.len() ==> exists|k: int|
                        0 <= k < i && (#[trigger] ks[k])@ == prop_key(s, p, e@, #[trigger] out@[j]),
                forall|k: int, id: u64|
                    #![trigger ks[k], prop_key(s, p, e@, id)]
                    lo <= k < i && ks[k]@ == prop_key(s, p, e@, id) ==> out@.contains(id),
            decreases hi - i,
        {
            let ghost before = out@;
            let ghost key = ks[i as int]@;
            proof {
                assert(self.index.has(key));
                let (t, q, d, x) = choose|t: u32, q: PropKeyId, d: Seq<u8>, x: u64|
                    key == #[trigger] prop_key(t, q, d, x);
                assert(begins(prefix@, key));
                lemma_begins_less(entry_head(s, p), e@, key);
                lemma_entry_prefix(s, p, t, q, d, x);
                lemma_exact_id(t, q, d, x, e@);
                assert forall|id: u64| key == #[trigger] prop_key(s, p, e@, id) implies d == e@
                    && id == x by {
                    lemma_prop_key_injective(s, p, e@, id, t, q, d, x);
                }
            }
            match exact_prop_index_id(self.index.keys[i].as_slice(), e) {
                Some(id) => {
                    out.push(id);
                    proof {
                        assert(key == prop_key(s, p, e@, id));
                        assert forall|j: int| 0 <= j < before.len() implies before[j] < id by {
                            let k = choose|k: int|
                                0 <= k < i && (#[trigger] ks[k])@ == prop_key(
                                    s,
                                    p,
                                    e@,
                                    before[j],
                                );
                            assert(bytes_lt(ks[k]@, ks[i as int]@));
                            lemma_entry_order(s, p, e@, before[j], id);
                        }
                        assert(ascending(out@));
                        assert(out@[before.len() as int] == id);
                    }
                },
                None => {},
            }
            proof {
                assert forall|j: int| 0 <= j < out@.len() implies exists|k: int|
                    0 <= k < i + 1 && (#[trigger] ks[k])@ == prop_key(
                        s,
                        p,
                        e@,
                        #[trigger] out@[j],
                    ) by {
                    if j < before.len() {
                        assert(out@[j] == before[j]);
                        let k = choose|k: int|
                            0 <= k < i && (#[trigger] ks[k])@ == prop_key(s, p, e@, before[j]);
                        assert(ks[k]@ == prop_key(s, p, e@, out@[j]));
                    } else {
                        assert(ks[i as int]@ == prop_key(s, p, e@, out@[j]));
                    }
                }
                assert forall|k: int, id: u64|
                    #![trigger ks[k], prop_key(s, p, e@, id)]
                    lo <= k < i + 1 && ks[k]@ == prop_key(s, p, e@, id) implies out@.contains(
                    id,
                ) by {
                    if k < i {
                        assert(before.contains(id));
                        let j = before.index_of(id);
                        assert(out@[j] == id);
                    }
                }
            }
            i = i + 1;
        }
        proof {
            assert forall|id: u64| #[trigger] out@.contains(id) <==> self.index.has(
                prop_key(s, p, e@, id),
            ) by {
                if out@.contains(id) {
                    let j = out@.index_of(id);
                    assert(out@[j] == id);
                }
                if self.index.has(prop_key(s, p, e@, id)) {
                    let k = choose|k: int|
                        0 <= k < ks.len() && (#[trigger] ks[k])@ == prop_key(s, p, e@, id);
                    lemma_entry_prefix(s, p, s, p, e@, id);
                    assert(begins(prefix@, ks[k]@));
                }
            }
        }
        out
    }

    /// The members of a scope that have a value that is not indexed.
    fn scan_for_value<R: Records>(
        &self,
        records: &R,
        s: u32,
        name: &str,
        v: &PropValue,
        h: Ghost<Holding>,
    ) -> (out: Vec<u64>)
        requires
            self.members_match(h@),
            recorded(*records, h@),
        ensures
            ascending(out@),
            forall|id: u64| #[trigger]
                out@.contains(id) <==> has_value(h@, s, id, name@, v@),
    {
        let all: Vec<u64> = self.ids(s, h);
        let mut out: Vec<u64> = Vec::new();
        let mut i: usize = 0;
        while i < all.len()
            invariant
                recorded(*records, h@),
                ascending(all@),
                forall|id: u64| #[trigger] all@.contains(id) <==> h@.dom().contains((s, id)),
                i <= all@.len(),
                ascending(out@),
                forall|j: int| 0 <= j < out@.len() && i < all@.len() ==> out@[j] < all@[i as int],
                forall|id: u64| #[trigger]
                    out@.contains(id) <==> all@.take(i as int).contains(id) && has_value(
                        h@,
                        s,
                        id,
                        name@,
                        v@,
                    ),
            decreases all@.len() - i,
        {
            let id: u64 = all[i];
            let ghost before = out@;
            proof {
                assert(all@.contains(id));
                assert(h@.dom().contains((s, id)));
            }
            let mut hit: bool = false;
            match records.props_of(id) {
                Some(props) => {
                    match props.get(name) {
                        Some(w) => {
                            hit = values_agree(w, v);
                        },
                        None => {},
                    }
                },
                None => {},
            }
            assert(hit == has_value(h@, s, id, name@, v@));
            if hit {
                out.push(id);
            }
            proof {
                lemma_select_step(all@, i as int, before, out@, hit);
                if i + 1 < all@.len() {
                    assert(all@[i as int] < all@[i + 1]);
                }
            }
            i = i + 1;
        }
        assert(all@.take(i as int) =~= all@);
        out
    }

    /// The constraint that a member with these properties would break, if any:
    /// the first in the order of the definitions.
    pub(crate) fn breach<R: Records>(
        &self,
        records: &R,
        keys: &Names,
        s: u32,
        id: u64,
        props: &Props,
        h: Ghost<Holding>,
    ) -> (r: Option<Error>)
        requires
            self.matches(h@, keys@),
            keys.wf(),
            recorded(*records, h@),
            props.wf(),
            s < self.scopes@.len(),
        ensures
            r is None ==> forall|i: int|
                0 <= i < self.defs@.len() ==> !#[trigger] self.broken_at(
                    h@,
                    keys@,
                    s,
                    id,
                    props@,
                    i,
                ),
            r matches Some(e) ==> exists|i: int|
                {
                    &&& 0 <= i < self.defs@.len()
                    &&& #[trigger] self.broken_at(h@, keys@, s, id, props@, i)
                    &&& forall|j: int|
                        0 <= j < i ==> !#[trigger] self.broken_at(h@, keys@, s, id, props@, j)
                    &&& reports(
                        e,
                        self.scopes@[s as int],
                        keys@[self.defs@[i].prop as int],
                        self.defs@[i].flags,
                        props@,
                    )
                },
    {
        let mut i: usize = 0;
        while i < self.defs.len()
            invariant
                self.matches(h@, keys@),
                keys.wf(),
                recorded(*records, h@),
                props.wf(),
                s < self.scopes@.len(),
                i <= self.defs@.len(),
                forall|j: int|
                    0 <= j < i ==> !#[trigger] self.broken_at(h@, keys@, s, id, props@, j),
            decreases self.defs@.len() - i,
        {
            let def: IndexDef = self.defs[i];
            if def.scope == s {
                assert(keys@[def.prop as int] == keys.names@[def.prop as int]@);
                let name: &str = keys.names[def.prop as usize].as_str();
                let found: Option<&PropValue> = props.get(name);
                let missing: bool = match found {
                    None => true,
                    Some(PropValue::Null) => true,
                    Some(_) => false,
                };
                assert(missing == lacks(props@, name@));
                if def.flags == REQUIRED && missing {
                    let e: Error = Error::RequiredConstraintViolation {
                        scope: self.scopes.names[s as usize].clone(),
                        property: keys.names[def.prop as usize].clone(),
                    };
                    proof {
                        assert(self.broken_at(h@, keys@, s, id, props@, i as int));
                    }
                    return Some(e);
                }
                if def.flags == UNIQUE && !missing {
                    if let Some(v) = found {
                        let same: Vec<u64> = self.lookup(records, keys, s, name, v, h);
                        proof {
                            assert(defined(self.defs@, s, def.prop));
                            assert(number_of_name(keys@, name@) == Some(def.prop)) by {
                                assert(keys@[def.prop as int] == name@);
                                assert(keys@.contains(name@));
                                let k = keys@.index_of(name@);
                                assert(keys@[k] == name@);
                            }
                        }
                        let other: bool = has_other(&same, id);
                        proof {
                            if other {
                                let k = choose|k: int|
                                    0 <= k < same@.len() && #[trigger] same@[k] != id;
                                assert(same@.contains(same@[k]));
                                assert(has_value(h@, s, same@[k], name@, props@[name@]));
                            } else {
                                assert forall|x: u64|
                                    x != id implies !#[trigger] has_value(
                                    h@,
                                    s,
                                    x,
                                    name@,
                                    props@[name@],
                                ) by {
                                    if has_value(h@, s, x, name@, props@[name@]) {
                                        assert(self.finds(h@, keys@, s, name@, v@, x));
                                        assert(same@.contains(x));
                                        let k = same@.index_of(x);
                                        assert(same@[k] == x);
                                    }
                                }
                            }
                        }
                        if other {
                            let e: Error = Error::UniqueConstraintViolation {
                                scope: self.scopes.names[s as usize].clone(),
                                property: keys.names[def.prop as usize].clone(),
                                value: copy_value(v),
                            };
                            proof {
                                assert(self.broken_at(h@, keys@, s, id, props@, i as int));
                            }
                            return Some(e);
                        }
                    }
                }
            }
            i = i + 1;
        }
        None
    }
}

/// Whether a list holds an id that is not `id`.
fn has_other(ids: &Vec<u64>, id: u64) -> (r: bool)
    ensures
        r <==> exists|k: int| 0 <= k < ids@.len() && #[trigger] ids@[k] != id,
{
    let mut k: usize = 0;
    while k < ids.len()
        invariant
            k <= ids@.len(),
            forall|j: int| 0 <= j < k ==> ids@[j] == id,
        decreases ids@.len() - k,
    {
        if ids[k] != id {
            return true;
        }
        k = k + 1;
    }
    false
}

/// One step of selecting from an ascending list.
proof fn lemma_select_step(all: Seq<u64>, i: int, before: Seq<u64>, now: Seq<u64>, hit: bool)
    requires
        ascending(all),
        0 <= i < all.len(),
        ascending(before),
        forall|j: int| 0 <= j < before.len() ==> before[j] < all[i],
        now == (if hit {
            before.push(all[i])
        } else {
            before
        }),
    ensures
        ascending(now),
        forall|j: int| 0 <= j < now.len() ==> now[j] <= all[i],
        forall|x: u64| #[trigger]
            now.contains(x) <==> before.contains(x) || (hit && x == all[i]),
        forall|x: u64| #[trigger]
            all.take(i + 1).contains(x) <==> all.take(i).contains(x) || x == all[i],
        !all.take(i).contains(all[i]),
{
    assert forall|x: u64| #[trigger] now.contains(x) <==> before.contains(x) || (hit && x
        == all[i]) by {
        if before.contains(x) {
            let j = before.index_of(x);
            assert(now[j] == x);
        }
        if hit {
            assert(now[before.len() as int] == all[i]);
        }
    }
    assert(all.take(i + 1) =~= all.take(i).push(all[i]));
    assert forall|x: u64| #[trigger] all.take(i + 1).contains(x) <==> all.take(i).contains(x) || x
        == all[i] by {
        if all.take(i).contains(x) {
            let j = all.take(i).index_of(x);
            assert(all.take(i + 1)[j] == x);
        }
        assert(all.take(i + 1)[i] == all[i]);
    }
    if all.take(i).contains(all[i]) {
        let j = all.take(i).index_of(all[i]);
        assert(all[j] < all[i]);
    }
}

/// Whether an encoded value lies between two bounds, and is comparable with them.
pub open spec fn within_bounds(
    e: Seq<u8>,
    lo: Option<Seq<u8>>,
    lo_inclusive: bool,
    hi: Option<Seq<u8>>,
    hi_inclusive: bool,
) -> bool {
    &&& in_range(e, lo, lo_inclusive, hi, hi_inclusive)
    &&& lo matches Some(l) ==> e.len() > 0 && family(e[0]) == family(l[0])
    &&& hi matches Some(h) ==> e.len() > 0 && family(e[0]) == family(h[0])
}

/// The encoding of a bound, where there is one.
pub open spec fn bound_encoding(bound: Option<PropValue>) -> Option<Seq<u8>> {
    match bound {
        Some(v) => encoding(v@),
        None => None,
    }
}

/// `out` lists the ids of the entries that satisfy `wanted`, whose values are
/// `values`, in the order of the index: by value, then by id.
pub open spec fn in_index_order(
    s: u32,
    p: PropKeyId,
    wanted: spec_fn(Seq<u8>, u64) -> bool,
    values: Seq<Seq<u8>>,
    out: Seq<u64>,
) -> bool {
    &&& values.len() == out.len()
    &&& forall|i: int, j: int|
        0 <= i < j < out.len() ==> bytes_lt(
            prop_key(s, p, #[trigger] values[i], out[i]),
            prop_key(s, p, #[trigger] values[j], out[j]),
        )
    &&& forall|i: int| 0 <= i < out.len() ==> wanted(#[trigger] values[i], out[i])
    &&& forall|e: Seq<u8>, id: u64| #[trigger]
        wanted(e, id) ==> exists|i: int| 0 <= i < out.len() && #[trigger] values[i] == e && out[i]
            == id
}

/// Whether a member has a string between two bounds in a property.
pub open spec fn has_string(
    h: Holding,
    s: u32,
    id: u64,
    name: Seq<char>,
    lo: Option<Seq<u8>>,
    lo_inclusive: bool,
    hi: Option<Seq<u8>>,
    hi_inclusive: bool,
) -> bool {
    &&& h.dom().contains((s, id))
    &&& h[(s, id)].dom().contains(name)
    &&& h[(s, id)][name] matches Val::Str(t) && in_range(
        encode_utf8(t),
        lo,
        lo_inclusive,
        hi,
        hi_inclusive,
    )
}

/// The bytes of an encoded bound.
pub open spec fn bytes_of(bound: Option<Vec<u8>>) -> Option<Seq<u8>> {
    match bound {
        Some(e) => Some(e@),
        None => None,
    }
}

/// The bound as a string, where it is one.
pub open spec fn text_bound(bound: Option<PropValue>) -> Option<Seq<u8>> {
    match bound {
        Some(PropValue::Str(t)) => Some(encode_utf8(t@)),
        _ => None,
    }
}

fn text_of_bound(bound: &Option<PropValue>) -> (r: Option<&str>)
    ensures
        bound_bytes(r) == text_bound(*bound),
{
    match bound {
        Some(PropValue::Str(t)) => Some(t.as_str()),
        _ => None,
    }
}

fn encode_bound(bound: &Option<PropValue>) -> (r: Option<Vec<u8>>)
    ensures
        r is Some <==> bound_encoding(*bound) is Some,
        r matches Some(e) ==> bound_encoding(*bound) == Some(e@) && e@.len() > 0,
{
    match bound {
        Some(v) => {
            proof {
                lemma_null_encoding(v@);
            }
            encode_property_value(v)
        },
        None => None,
    }
}

/// Whether an encoded value lies between two bounds, and is comparable with them.
fn satisfies_bounds(
    e: &[u8],
    lo: &Option<Vec<u8>>,
    lo_inclusive: bool,
    hi: &Option<Vec<u8>>,
    hi_inclusive: bool,
) -> (r: bool)
    requires
        lo matches Some(l) ==> l@.len() > 0,
        hi matches Some(u) ==> u@.len() > 0,
    ensures
        r == within_bounds(
            e@,
            bytes_of(*lo),
            lo_inclusive,
            bytes_of(*hi),
            hi_inclusive,
        ),
{
    if let Some(l) = lo {
        if e.len() == 0 || encoded_tag_family(e[0]) != encoded_tag_family(l[0]) {
            return false;
        }
        proof {
            lemma_bytes_lt_total(l@, e@);
            lemma_bytes_lt_irreflexive(e@);
        }
        if lo_inclusive {
            if bytes_less(e, l.as_slice()) {
                return false;
            }
        } else if !bytes_less(l.as_slice(), e) {
            return false;
        }
    }
    if let Some(u) = hi {
        if e.len() == 0 || encoded_tag_family(e[0]) != encoded_tag_family(u[0]) {
            return false;
        }
        proof {
            lemma_bytes_lt_total(u@, e@);
            lemma_bytes_lt_irreflexive(e@);
        }
        if hi_inclusive {
            if bytes_less(u.as_slice(), e) {
                return false;
            }
        } else if !bytes_less(e, u.as_slice()) {
            return false;
        }
    }
    true
}

impl Catalog {
    /// Whether the index holds an entry for this value of this member.
    pub open spec fn listed(
        &self,
        h: Holding,
        keys: Seq<Seq<char>>,
        s: u32,
        p: PropKeyId,
        e: Seq<u8>,
        id: u64,
    ) -> bool {
        self.due(h, keys, s, p, e, id) || (e == seq![0u8] && self.marked(s, p, id))
    }

    /// The entries that a range admits.
    pub open spec fn admitted(
        &self,
        h: Holding,
        keys: Seq<Seq<char>>,
        s: u32,
        p: PropKeyId,
        lo: Option<Seq<u8>>,
        lo_inclusive: bool,
        hi: Option<Seq<u8>>,
        hi_inclusive: bool,
    ) -> spec_fn(Seq<u8>, u64) -> bool {
        |e: Seq<u8>, id: u64|
            self.listed(h, keys, s, p, e, id) && within_bounds(
                e,
                lo,
                lo_inclusive,
                hi,
                hi_inclusive,
            )
    }

    /// What a range over one property of one scope gives: with a bound that is
    /// a string, the members with strings in the range, by id; otherwise what
    /// the index lists, by value and then by id.
    pub open spec fn ranges(
        &self,
        h: Holding,
        keys: Seq<Seq<char>>,
        s: u32,
        name: Seq<char>,
        lo: Option<PropValue>,
        lo_inclusive: bool,
        hi: Option<PropValue>,
        hi_inclusive: bool,
        out: Seq<u64>,
    ) -> bool {
        if is_text(lo) || is_text(hi) {
            &&& ascending(out)
            &&& forall|id: u64| #[trigger]
                out.contains(id) <==> !is_other(lo) && !is_other(hi) && has_string(
                    h,
                    s,
                    id,
                    name,
                    text_bound(lo),
                    lo_inclusive,
                    text_bound(hi),
                    hi_inclusive,
                )
        } else {
            match number_of_name(keys, name) {
                None => out.len() == 0,
                Some(p) => exists|values: Seq<Seq<u8>>| #[trigger]
                    in_index_order(
                        s,
                        p,
                        self.admitted(
                            h,
                            keys,
                            s,
                            p,
                            bound_encoding(lo),
                            lo_inclusive,
                            bound_encoding(hi),
                            hi_inclusive,
                        ),
                        values,
                        out,
                    ),
            }
        }
    }

    /// The members of a scope with a property between two bounds.
    pub(crate) fn lookup_range<R: Records>(
        &self,
        records: &R,
        keys: &Names,
        s: u32,
        name: &str,
        lo: &Option<PropValue>,
        lo_inclusive: bool,
        hi: &Option<PropValue>,
        hi_inclusive: bool,
        h: Ghost<Holding>,
    ) -> (out: Vec<u64>)
        requires
            self.matches(h@, keys@),
            keys.wf(),
            recorded(*records, h@),
        ensures
            self.ranges(h@, keys@, s, name@, *lo, lo_inclusive, *hi, hi_inclusive, out@),
    {
        let (text_lo, other_lo): (bool, bool) = bound_shape(lo);
        let (text_hi, other_hi): (bool, bool) = bound_shape(hi);
        if text_lo || text_hi {
            if other_lo || other_hi {
                return Vec::new();
            }
            return self.scan_for_strings(
                records,
                s,
                name,
                text_of_bound(lo),
                lo_inclusive,
                text_of_bound(hi),
                hi_inclusive,
                h,
            );
        }
        match keys.number(name) {
            None => Vec::new(),
            Some(p) => {
                let l: Option<Vec<u8>> = encode_bound(lo);
                let u: Option<Vec<u8>> = encode_bound(hi);
                self.entries_between(keys, s, p, &l, lo_inclusive, &u, hi_inclusive, h)
            },
        }
    }

    /// The ids of the entries of one property whose values lie between two bounds.
    fn entries_between(
        &self,
        keys: &Names,
        s: u32,
        p: PropKeyId,
        lo: &Option<Vec<u8>>,
        lo_inclusive: bool,
        hi: &Option<Vec<u8>>,
        hi_inclusive: bool,
        h: Ghost<Holding>,
    ) -> (out: Vec<u64>)
        requires
            self.matches(h@, keys@),
            lo matches Some(l) ==> l@.len() > 0,
            hi matches Some(u) ==> u@.len() > 0,
        ensures
            exists|values: Seq<Seq<u8>>| #[trigger]
                in_index_order(
                    s,
                    p,
                    self.admitted(
                        h@,
                        keys@,
                        s,
                        p,
                        bytes_of(*lo),
                        lo_inclusive,
                        bytes_of(*hi),
                        hi_inclusive,
                    ),
                    values,
                    out@,
                ),
    {
        let ghost l = bytes_of(*lo);
        let ghost u = bytes_of(*hi);
        let ghost wanted = self.admitted(h@, keys@, s, p, l, lo_inclusive, u, hi_inclusive);
        let ghost ks = self.index.keys@;
        let mut prefix: Vec<u8> = Vec::new();
        push_be(&mut prefix, s as u64, 4);
        push_be(&mut prefix, p as u64, 4);
        assert(prefix@ =~= entry_head(s, p));
        let (first, end): (usize, usize) = self.index.scan(prefix.as_slice());
        let mut out: Vec<u64> = Vec::new();
        let mut values: Ghost<Seq<Seq<u8>>> = Ghost(Seq::empty());
        let mut i: usize = first;
        while i < end
            invariant
                self.matches(h@, keys@),
                lo matches Some(l) ==> l@.len() > 0,
                hi matches Some(u) ==> u@.len() > 0,
                l == bytes_of(*lo),
                u == bytes_of(*hi),
                wanted == self.admitted(h@, keys@, s, p, l, lo_inclusive, u, hi_inclusive),
                ks == self.index.keys@,
                prefix@ == entry_head(s, p),
                first <= i <= end <= ks.len(),
                forall|k: int|
                    0 <= k < ks.len() ==> (first <= k < end <==> begins(
                        prefix@,
                        #[trigger] ks[k]@,
                    )),
                values@.len() == out@.len(),
                forall|a: int, b: int|
                    0 <= a < b < out@.len() ==> bytes_lt(
                        prop_key(s, p, #[trigger] values@[a], out@[a]),
                        prop_key(s, p, #[trigger] values@[b], out@[b]),
                    ),
                forall|a: int|
                    0 <= a < out@.len() ==> wanted(#[trigger] values@[a], out@[a]) && below_key(
                        ks,
                        i as int,
                        prop_key(s, p, values@[a], out@[a]),
                    ),
                forall|k: int, e: Seq<u8>, id: u64|
                    #![trigger ks[k], prop_key(s, p, e, id)]
                    first <= k < i && ks[k]@ == prop_key(s, p, e, id) && within_bounds(
                        e,
                        l,
                        lo_inclusive,
                        u,
                        hi_inclusive,
                    ) ==> exists|a: int|
                        0 <= a < out@.len() && #[trigger] values@[a] == e && out@[a] == id,
            decreases end - i,
        {
            let ghost key = ks[i as int]@;
            let ghost (d, x) = choose|d: Seq<u8>, x: u64| key == #[trigger] prop_key(s, p, d, x);
            proof {
                assert(self.index.has(key));
                let (t, q, d2, x2) = choose|t: u32, q: PropKeyId, d2: Seq<u8>, x2: u64|
                    key == #[trigger] prop_key(t, q, d2, x2);
                assert(begins(prefix@, key));
                lemma_entry_prefix(s, p, t, q, d2, x2);
                assert(key == prop_key(s, p, d2, x2));
                lemma_entry_prefix(s, p, s, p, d, x);
                assert(self.listed(h@, keys@, s, p, d, x)) by {
                    if d == seq![0u8] {
                        assert(self.marked(s, p, x));
                    } else {
                        assert(self.index.has(prop_key(s, p, d, x)));
                    }
                }
            }
            let n: usize = self.index.keys[i].len();
            let segment: &[u8] = vstd::slice::slice_subrange(
                self.index.keys[i].as_slice(),
                8,
                n - 8,
            );
            assert(segment@ == d);
            let ghost before = out@;
            let ghost had = values@;
            let mut hit: bool = false;
            if satisfies_bounds(segment, lo, lo_inclusive, hi, hi_inclusive) {
                let id: u64 = read_be(self.index.keys[i].as_slice(), n - 8, n);
                proof {
                    assert(key.skip(8 + d.len() as int) =~= key.subrange(n - 8, n as int));
                    assert(id == x);
                }
                out.push(id);
                values = Ghost(values@.push(d));
                hit = true;
            }
            proof {
                assert forall|a: int, b: int| 0 <= a < b < out@.len() implies bytes_lt(
                    prop_key(s, p, #[trigger] values@[a], out@[a]),
                    prop_key(s, p, #[trigger] values@[b], out@[b]),
                ) by {
                    assert(values@[a] == had[a] && out@[a] == before[a]);
                    if b < before.len() {
                        assert(values@[b] == had[b] && out@[b] == before[b]);
                    } else {
                        assert(wanted(had[a], before[a]));
                        let k = choose|k: int|
                            0 <= k < i && (#[trigger] ks[k])@ == prop_key(
                                s,
                                p,
                                had[a],
                                before[a],
                            );
                        assert(bytes_lt(ks[k]@, ks[i as int]@));
                    }
                }
                assert forall|a: int| 0 <= a < out@.len() implies wanted(
                    #[trigger] values@[a],
                    out@[a],
                ) && below_key(ks, i + 1, prop_key(s, p, values@[a], out@[a])) by {
                    if a < before.len() {
                        assert(values@[a] == had[a] && out@[a] == before[a]);
                        assert(wanted(had[a], before[a]));
                        let k = choose|k: int|
                            0 <= k < i && (#[trigger] ks[k])@ == prop_key(
                                s,
                                p,
                                had[a],
                                before[a],
                            );
                        assert(ks[k]@ == prop_key(s, p, values@[a], out@[a]));
                    } else {
                        assert(ks[i as int]@ == prop_key(s, p, values@[a], out@[a]));
                    }
                }
                assert forall|k: int, e: Seq<u8>, id: u64|
                    #![trigger ks[k], prop_key(s, p, e, id)]
                    first <= k < i + 1 && ks[k]@ == prop_key(s, p, e, id) && within_bounds(
                        e,
                        l,
                        lo_inclusive,
                        u,
                        hi_inclusive,
                    ) implies exists|a: int|
                    0 <= a < out@.len() && #[trigger] values@[a] == e && out@[a] == id by {
                    if k < i {
                        let a = choose|a: int|
                            0 <= a < before.len() && #[trigger] had[a] == e && before[a] == id;
                        assert(values@[a] == e && out@[a] == id);
                    } else {
                        lemma_prop_key_injective(s, p, e, id, s, p, d, x);
                        assert(values@[before.len() as int] == e);
                    }
                }
            }
            i = i + 1;
        }
        proof {
            assert forall|e: Seq<u8>, id: u64| #[trigger] wanted(e, id) implies exists|a: int|
                0 <= a < out@.len() && #[trigger] values@[a] == e && out@[a] == id by {
                assert(self.index.has(prop_key(s, p, e, id))) by {
                    if e == seq![0u8] {
                        assert(self.marked(s, p, id));
                    } else {
                        assert(has_encoded(h@, keys@, s, p, e, id));
                    }
                }
                let k = choose|k: int|
                    0 <= k < ks.len() && (#[trigger] ks[k])@ == prop_key(s, p, e, id);
                lemma_entry_prefix(s, p, s, p, e, id);
                assert(begins(prefix@, ks[k]@));
            }
            assert(in_index_order(s, p, wanted, values@, out@));
        }
        out
    }

    /// The members of a scope with a string between two bounds in a property.
    fn scan_for_strings<R: Records>(
        &self,
        records: &R,
        s: u32,
        name: &str,
        lo: Option<&str>,
        lo_inclusive: bool,
        hi: Option<&str>,
        hi_inclusive: bool,
        h: Ghost<Holding>,
    ) -> (out: Vec<u64>)
        requires
            self.members_match(h@),
            recorded(*records, h@),
        ensures
            ascending(out@),
            forall|id: u64| #[trigger]
                out@.contains(id) <==> has_string(
                    h@,
                    s,
                    id,
                    name@,
                    bound_bytes(lo),
                    lo_inclusive,
                    bound_bytes(hi),
                    hi_inclusive,
                ),
    {
        let all: Vec<u64> = self.ids(s, h);
        let mut out: Vec<u64> = Vec::new();
        let mut i: usize = 0;
        while i < all.len()
            invariant
                recorded(*records, h@),
                ascending(all@),
                forall|id: u64| #[trigger] all@.contains(id) <==> h@.dom().contains((s, id)),
                i <= all@.len(),
                ascending(out@),
                forall|j: int| 0 <= j < out@.len() && i < all@.len() ==> out@[j] < all@[i as int],
                forall|id: u64| #[trigger]
                    out@.contains(id) <==> all@.take(i as int).contains(id) && has_string(
                        h@,
                        s,
                        id,
                        name@,
                        bound_bytes(lo),
                        lo_inclusive,
                        bound_bytes(hi),
                        hi_inclusive,
                    ),
            decreases all@.len() - i,
        {
            let id: u64 = all[i];
            let ghost before = out@;
            proof {
                assert(all@.contains(id));
                assert(h@.dom().contains((s, id)));
            }
            let mut hit: bool = false;
            match records.props_of(id) {
                Some(props) => {
                    match props.get(name) {
                        Some(PropValue::Str(t)) => {
                            hit = str_in_range(t.as_str(), lo, lo_inclusive, hi, hi_inclusive);
                        },
                        _ => {},
                    }
                },
                None => {},
            }
            assert(hit == has_string(
                h@,
                s,
                id,
                name@,
                bound_bytes(lo),
                lo_inclusive,
                bound_bytes(hi),
                hi_inclusive,
            ));
            if hit {
                out.push(id);
            }
            proof {
                lemma_select_step(all@, i as int, before, out@, hit);
                if i + 1 < all@.len() {
                    assert(all@[i as int] < all@[i + 1]);
                }
            }
            i = i + 1;
        }
        assert(all@.take(i as int) =~= all@);
        out
    }

    /// Whether the index holds an entry for a property of a scope.
    pub(crate) fn has_entries(&self, s: u32, p: PropKeyId, h: Ghost<Holding>, keys: Ghost<
        Seq<Seq<char>>,
    >) -> (r: bool)
        requires
            self.matches(h@, keys@),
        ensures
            r <==> exists|e: Seq<u8>, id: u64| #[trigger] self.listed(h@, keys@, s, p, e, id),
    {
        let mut prefix: Vec<u8> = Vec::new();
        push_be(&mut prefix, s as u64, 4);
        push_be(&mut prefix, p as u64, 4);
        assert(prefix@ =~= entry_head(s, p));
        let (lo, hi): (usize, usize) = self.index.scan(prefix.as_slice());
        proof {
            let ks = self.index.keys@;
            if lo < hi {
                let key = ks[lo as int]@;
                assert(self.index.has(key));
                let (t, q, d, x) = choose|t: u32, q: PropKeyId, d: Seq<u8>, x: u64|
                    key == #[trigger] prop_key(t, q, d, x);
                assert(begins(prefix@, key));
                lemma_entry_prefix(s, p, t, q, d, x);
                assert(self.index.has(prop_key(s, p, d, x)));
                if d == seq![0u8] {
                    assert(self.marked(s, p, x));
                }
                assert(self.listed(h@, keys@, s, p, d, x));
            }
            if exists|e: Seq<u8>, id: u64| #[trigger] self.listed(h@, keys@, s, p, e, id) {
                let (e, id) = choose|e: Seq<u8>, id: u64| #[trigger]
                    self.listed(h@, keys@, s, p, e, id);
                if e == seq![0u8] {
                    assert(self.marked(s, p, id));
                } else {
                    assert(has_encoded(h@, keys@, s, p, e, id));
                }
                let k = choose|k: int|
                    0 <= k < ks.len() && (#[trigger] ks[k])@ == prop_key(s, p, e, id);
                lemma_entry_prefix(s, p, s, p, e, id);
                assert(begins(prefix@, ks[k]@));
            }
        }
        lo < hi
    }
}

/// Whether a key is among the first `i`.
spec fn below_key(ks: Seq<Vec<u8>>, i: int, key: Seq<u8>) -> bool {
    exists|k: int| 0 <= k < i && (#[trigger] ks[k])@ == key
}

/// Whether a bound is a string.
pub open spec fn is_text(bound: Option<PropValue>) -> bool {
    bound matches Some(v) && v is Str
}

/// Whether there is a bound that is no string.
pub open spec fn is_other(bound: Option<PropValue>) -> bool {
    bound matches Some(v) && v !is Str
}

/// Whether there is a bound that is a string, and whether there is one that is none.
fn bound_shape(bound: &Option<PropValue>) -> (r: (bool, bool))
    ensures
        r == (is_text(*bound), is_other(*bound)),
{
    match bound {
        None => (false, false),
        Some(PropValue::Str(_)) => (true, false),
        Some(_) => (false, true),
    }
}

/// The text by which definitions are ordered.
pub open spec fn def_key(d: IndexDef) -> Seq<u8> {
    encode_utf8(pair_name(""@, d.scope, d.prop, ""@))
}

/// The first position from `i` on whose definition does not sort before `d`.
pub open spec fn def_place(defs: Seq<IndexDef>, d: IndexDef, i: int) -> int
    decreases defs.len() - i,
{
    if i < defs.len() && bytes_lt(def_key(defs[i]), def_key(d)) {
        def_place(defs, d, i + 1)
    } else {
        i
    }
}

/// Whether the definition at `i` is on this property of this scope.
pub open spec fn defined_at(defs: Seq<IndexDef>, s: u32, p: PropKeyId, i: int) -> bool {
    0 <= i < defs.len() && defs[i].scope == s && defs[i].prop == p
}

/// The definitions with `d`, in place of the one on the same property.
pub open spec fn with_def(defs: Seq<IndexDef>, d: IndexDef) -> Seq<IndexDef> {
    if defined(defs, d.scope, d.prop) {
        defs.update(choose|i: int| defined_at(defs, d.scope, d.prop, i), d)
    } else {
        defs.insert(def_place(defs, d, 0), d)
    }
}

/// The definitions without the one on this property.
pub open spec fn without_def(defs: Seq<IndexDef>, s: u32, p: PropKeyId) -> Seq<IndexDef> {
    defs.remove(choose|i: int| defined_at(defs, s, p, i))
}

/// Whether an index or constraint of this kind is defined on a property.
pub open spec fn has_def(
    scopes: Seq<Seq<char>>,
    keys: Seq<Seq<char>>,
    defs: Seq<IndexDef>,
    scope: Seq<char>,
    name: Seq<char>,
    flags: u8,
) -> bool {
    number_of_name(scopes, scope) matches Some(s) && (number_of_name(keys, name) matches Some(p)
        && defs.contains(IndexDef { scope: s, prop: p, flags }))
}

/// Whether the members of a scope do not satisfy a constraint.
pub open spec fn unmet(h: Holding, s: u32, name: Seq<char>, flags: u8) -> bool {
    ||| flags == 2 && exists|id: u64| #[trigger]
        h.dom().contains((s, id)) && lacks(h[(s, id)], name)
    ||| flags == 1 && exists|a: u64, b: u64| a != b && #[trigger] share(h, s, name, a, b)
}

/// Whether two members have the same value in a property, and not null.
pub open spec fn share(h: Holding, s: u32, name: Seq<char>, a: u64, b: u64) -> bool {
    &&& h.dom().contains((s, a))
    &&& h.dom().contains((s, b))
    &&& !lacks(h[(s, a)], name)
    &&& !lacks(h[(s, b)], name)
    &&& same_value(h[(s, a)][name], h[(s, b)][name])
}

pub proof fn lemma_def_place(defs: Seq<IndexDef>, d: IndexDef, i: int)
    requires
        0 <= i <= defs.len(),
    ensures
        i <= def_place(defs, d, i) <= defs.len(),
    decreases defs.len() - i,
{
    if i < defs.len() && bytes_lt(def_key(defs[i]), def_key(d)) {
        lemma_def_place(defs, d, i + 1);
    }
}

proof fn lemma_defined(defs: Seq<IndexDef>, s: u32, p: PropKeyId, i: int)
    requires
        defined_at(defs, s, p, i),
        forall|a: int, b: int|
            0 <= a < b < defs.len() ==> (#[trigger] defs[a]).scope != (#[trigger] defs[b]).scope
                || defs[a].prop != defs[b].prop,
    ensures
        defined(defs, s, p),
        (choose|j: int| defined_at(defs, s, p, j)) == i,
{
    let j = choose|j: int| defined_at(defs, s, p, j);
    assert(defined_at(defs, s, p, j));
    if j < i {
        assert(defs[j].scope != defs[i].scope || defs[j].prop != defs[i].prop);
    } else if i < j {
        assert(defs[i].scope != defs[j].scope || defs[i].prop != defs[j].prop);
    }
}

impl Catalog {
    /// The position of the definition on a property.
    fn def_position(&self, s: u32, p: PropKeyId) -> (r: Option<usize>)
        ensures
            r is Some <==> defined(self.defs@, s, p),
            r matches Some(i) ==> defined_at(self.defs@, s, p, i as int),
    {
        let mut i: usize = 0;
        while i < self.defs.len()
            invariant
                i <= self.defs@.len(),
                forall|j: int| 0 <= j < i ==> !#[trigger] defined_at(self.defs@, s, p, j),
            decreases self.defs@.len() - i,
        {
            if self.defs[i].scope == s && self.defs[i].prop == p {
                return Some(i);
            }
            i = i + 1;
        }
        proof {
            if defined(self.defs@, s, p) {
                let j = choose|j: int|
                    0 <= j < self.defs@.len() && (#[trigger] self.defs@[j]).scope == s
                        && self.defs@[j].prop == p;
                assert(defined_at(self.defs@, s, p, j));
            }
        }
        None
    }

    /// The reason for which the members of a scope do not satisfy a constraint,
    /// if they do not.
    fn clash<R: Records>(
        &self,
        records: &R,
        s: u32,
        scope: &str,
        name: &str,
        flags: u8,
        h: Ghost<Holding>,
    ) -> (r: Option<Error>)
        requires
            self.members_match(h@),
            recorded(*records, h@),
        ensures
            r is Some <==> unmet(h@, s, name@, flags),
            r matches Some(e) ==> exists|id: u64|
                {
                    &&& #[trigger] h@.dom().contains((s, id))
                    &&& reports(e, scope@, name@, flags, h@[(s, id)])
                },
    {
        let all: Vec<u64> = self.ids(s, h);
        let mut seen: ahash::AHashSet<Vec<u8>> = new_byte_strings();
        let mut i: usize = 0;
        while i < all.len()
            invariant
                recorded(*records, h@),
                ascending(all@),
                forall|id: u64| #[trigger] all@.contains(id) <==> h@.dom().contains((s, id)),
                i <= all@.len(),
                flags == 2 ==> forall|j: int|
                    0 <= j < i ==> !lacks(h@[(s, #[trigger] all@[j])], name@),
                flags == 1 ==> forall|x: Seq<u8>| #[trigger]
                    byte_strings_in(seen).contains(x) <==> exists|j: int|
                        0 <= j < i && !lacks(h@[(s, #[trigger] all@[j])], name@) && identity(
                            h@[(s, all@[j])][name@],
                        ) == x,
                flags == 1 ==> forall|a: int, b: int|
                    0 <= a < b < i ==> !share(
                        h@,
                        s,
                        name@,
                        #[trigger] all@[a],
                        #[trigger] all@[b],
                    ),
            decreases all@.len() - i,
        {
            let id: u64 = all[i];
            let ghost before = byte_strings_in(seen);
            proof {
                assert(all@.contains(id));
                assert(h@.dom().contains((s, id)));
            }
            match records.props_of(id) {
                Some(props) => {
                    let found: Option<&PropValue> = props.get(name);
                    let missing: bool = match found {
                        None => true,
                        Some(PropValue::Null) => true,
                        Some(_) => false,
                    };
                    assert(missing == lacks(h@[(s, id)], name@));
                    if flags == REQUIRED && missing {
                        return Some(
                            Error::RequiredConstraintViolation {
                                scope: scope.to_owned(),
                                property: name.to_owned(),
                            },
                        );
                    }
                    if flags == UNIQUE && !missing {
                        if let Some(v) = found {
                            let fresh: bool = insert_byte_string(&mut seen, identity_bytes(v));
                            if !fresh {
                                proof {
                                    let j = choose|j: int|
                                        0 <= j < i && !lacks(
                                            h@[(s, #[trigger] all@[j])],
                                            name@,
                                        ) && identity(h@[(s, all@[j])][name@]) == identity(v@);
                                    let other = all@[j];
                                    assert(all@.contains(other));
                                    lemma_identity(h@[(s, other)][name@], v@);
                                    assert(other < id);
                                    assert(share(h@, s, name@, other, id));
                                }
                                return Some(
                                    Error::UniqueConstraintViolation {
                                        scope: scope.to_owned(),
                                        property: name.to_owned(),
                                        value: copy_value(v),
                                    },
                                );
                            }
                        }
                    }
                },
                None => {},
            }
            proof {
                if flags == 1 {
                    assert forall|a: int, b: int| 0 <= a < b < i + 1 implies !share(
                        h@,
                        s,
                        name@,
                        #[trigger] all@[a],
                        #[trigger] all@[b],
                    ) by {
                        if b == i && share(h@, s, name@, all@[a], all@[b]) {
                            lemma_identity(h@[(s, all@[a])][name@], h@[(s, id)][name@]);
                            assert(before.contains(identity(h@[(s, id)][name@])));
                        }
                    }
                    assert forall|x: Seq<u8>| #[trigger]
                        byte_strings_in(seen).contains(x) <==> exists|j: int|
                            0 <= j < i + 1 && !lacks(h@[(s, #[trigger] all@[j])], name@)
                                && identity(h@[(s, all@[j])][name@]) == x by {
                        if before.contains(x) {
                            let j = choose|j: int|
                                0 <= j < i && !lacks(h@[(s, #[trigger] all@[j])], name@)
                                    && identity(h@[(s, all@[j])][name@]) == x;
                            assert(0 <= j < i + 1 && !lacks(h@[(s, all@[j])], name@));
                        }
                        if !lacks(h@[(s, id)], name@) && identity(h@[(s, id)][name@]) == x {
                            assert(all@[i as int] == id);
                        }
                        if exists|j: int|
                            0 <= j < i + 1 && !lacks(h@[(s, #[trigger] all@[j])], name@)
                                && identity(h@[(s, all@[j])][name@]) == x {
                            let j = choose|j: int|
                                0 <= j < i + 1 && !lacks(h@[(s, #[trigger] all@[j])], name@)
                                    && identity(h@[(s, all@[j])][name@]) == x;
                            if j < i {
                                assert(before.contains(x));
                            }
                        }
                    }
                }
            }
            i = i + 1;
        }
        proof {
            if flags == 2 {
                assert forall|id: u64| #[trigger] h@.dom().contains((s, id)) implies !lacks(
                    h@[(s, id)],
                    name@,
                ) by {
                    assert(all@.contains(id));
                    let j = all@.index_of(id);
                    assert(all@[j] == id);
                }
            }
            if flags == 1 {
                assert forall|a: u64, b: u64| a != b implies !#[trigger] share(
                    h@,
                    s,
                    name@,
                    a,
                    b,
                ) by {
                    if share(h@, s, name@, a, b) {
                        assert(all@.contains(a) && all@.contains(b));
                        let (j, k) = (all@.index_of(a), all@.index_of(b));
                        assert(all@[j] == a && all@[k] == b);
                        if j < k {
                            assert(!share(h@, s, name@, all@[j], all@[k]));
                        } else {
                            assert(share(h@, s, name@, b, a));
                            assert(!share(h@, s, name@, all@[k], all@[j]));
                        }
                    }
                }
            }
        }
        None
    }

    /// Puts a definition in its place.
    fn put_def(&mut self, d: IndexDef, keys: Ghost<Seq<Seq<char>>>)
        requires
            old(self).defs_ok(keys@),
            d.scope < old(self).scopes@.len(),
            d.prop < keys@.len(),
        ensures
            *final(self) == (Catalog { defs: final(self).defs, ..*old(self) }),
            final(self).defs@ == with_def(old(self).defs@, d),
            final(self).defs_ok(keys@),
            forall|s: u32, p: PropKeyId| #[trigger]
                defined(final(self).defs@, s, p) <==> defined(old(self).defs@, s, p) || (s
                    == d.scope && p == d.prop),
    {
        let ghost before = self.defs@;
        match self.def_position(d.scope, d.prop) {
            Some(i) => {
                self.defs.set(i, d);
                proof {
                    lemma_defined(before, d.scope, d.prop, i as int);
                    let now = self.defs@;
                    assert forall|s: u32, p: PropKeyId| #[trigger]
                        defined(now, s, p) <==> defined(before, s, p) || (s == d.scope && p
                            == d.prop) by {
                        if defined(now, s, p) {
                            let k = choose|k: int|
                                0 <= k < now.len() && (#[trigger] now[k]).scope == s && now[k].prop
                                    == p;
                            if k != i {
                                assert(before[k] == now[k]);
                            }
                        }
                        if defined(before, s, p) {
                            let k = choose|k: int|
                                0 <= k < before.len() && (#[trigger] before[k]).scope == s
                                    && before[k].prop == p;
                            if k != i {
                                assert(before[k] == now[k]);
                            } else {
                                assert(now[k] == d);
                            }
                        }
                        assert(now[i as int] == d);
                    }
                }
            },
            None => {
                let key: String = build_pair_name("", d.scope, d.prop, "");
                let mut i: usize = 0;
                let mut done: bool = false;
                while i < self.defs.len() && !done
                    invariant
                        i <= self.defs@.len(),
                        self.defs@ == before,
                        encode_utf8(key@) == def_key(d),
                        def_place(before, d, 0) == def_place(before, d, i as int),
                        done ==> def_place(before, d, 0) == i,
                    ensures
                        def_place(before, d, 0) == i,
                    decreases self.defs@.len() - i, bit(!done),
                {
                    let other: String = build_pair_name(
                        "",
                        self.defs[i].scope,
                        self.defs[i].prop,
                        "",
                    );
                    if bytes_less(other.as_str().as_bytes(), key.as_str().as_bytes()) {
                        i = i + 1;
                    } else {
                        done = true;
                    }
                }
                self.defs.insert(i, d);
                proof {
                    let now = self.defs@;
                    assert forall|a: int, b: int| 0 <= a < b < now.len() implies (
                    #[trigger] now[a]).scope != (#[trigger] now[b]).scope || now[a].prop
                        != now[b].prop by {
                        let x = if a < i {
                            a
                        } else {
                            a - 1
                        };
                        let y = if b < i {
                            b
                        } else {
                            b - 1
                        };
                        if a != i && b != i {
                            assert(now[a] == before[x] && now[b] == before[y]);
                        } else if a == i {
                            assert(now[b] == before[y]);
                        } else {
                            assert(now[a] == before[x]);
                        }
                    }
                    assert forall|k: int| 0 <= k < now.len() implies (#[trigger] now[k]).scope
                        < self.scopes@.len() && now[k].prop < keys@.len() by {
                        if k < i {
                            assert(now[k] == before[k]);
                        } else if k > i {
                            assert(now[k] == before[k - 1]);
                        }
                    }
                    assert forall|s: u32, p: PropKeyId| #[trigger]
                        defined(now, s, p) <==> defined(before, s, p) || (s == d.scope && p
                            == d.prop) by {
                        if defined(now, s, p) {
                            let k = choose|k: int|
                                0 <= k < now.len() && (#[trigger] now[k]).scope == s && now[k].prop
                                    == p;
                            if k < i {
                                assert(before[k] == now[k]);
                            } else if k > i {
                                assert(before[k - 1] == now[k]);
                            }
                        }
                        if defined(before, s, p) {
                            let k = choose|k: int|
                                0 <= k < before.len() && (#[trigger] before[k]).scope == s
                                    && before[k].prop == p;
                            if k < i {
                                assert(before[k] == now[k]);
                            } else {
                                assert(before[k] == now[k + 1]);
                            }
                        }
                        assert(now[i as int] == d);
                    }
                }
            },
        }
    }

    /// Enters the values that the members of a scope have in a property, null
    /// ones too.
    fn backfill<R: Records>(
        &mut self,
        records: &R,
        s: u32,
        p: PropKeyId,
        name: &str,
        h: Ghost<Holding>,
        keys: Ghost<Seq<Seq<char>>>,
    )
        requires
            old(self).members_match(h@),
            recorded(*records, h@),
            old(self).index.wf(),
            forall|key: Seq<u8>| #[trigger] old(self).index.has(key) ==> is_entry_key(key),
            p < keys@.len(),
            keys@[p as int] == name@,
        ensures
            *final(self) == (Catalog { index: final(self).index, ..*old(self) }),
            final(self).index.wf(),
            forall|key: Seq<u8>| #[trigger] final(self).index.has(key) ==> is_entry_key(key),
            forall|t: u32, q: PropKeyId, e: Seq<u8>, x: u64| #[trigger]
                final(self).index.has(prop_key(t, q, e, x)) <==> old(self).index.has(
                    prop_key(t, q, e, x),
                ) || (t == s && q == p && has_encoded(h@, keys@, s, p, e, x)),
    {
        let ghost before = *self;
        let all: Vec<u64> = self.ids(s, h);
        let mut i: usize = 0;
        while i < all.len()
            invariant
                recorded(*records, h@),
                forall|id: u64| #[trigger] all@.contains(id) <==> h@.dom().contains((s, id)),
                p < keys@.len(),
                keys@[p as int] == name@,
                i <= all@.len(),
                *self == (Catalog { index: self.index, ..before }),
                self.index.wf(),
                forall|key: Seq<u8>| #[trigger] self.index.has(key) ==> is_entry_key(key),
                forall|t: u32, q: PropKeyId, e: Seq<u8>, x: u64| #[trigger]
                    self.index.has(prop_key(t, q, e, x)) <==> before.index.has(
                        prop_key(t, q, e, x),
                    ) || (t == s && q == p && all@.take(i as int).contains(x) && has_encoded(
                        h@,
                        keys@,
                        s,
                        p,
                        e,
                        x,
                    )),
            decreases all@.len() - i,
        {
            let id: u64 = all[i];
            let ghost old_index = self.index;
            proof {
                assert(all@.contains(id));
                assert(h@.dom().contains((s, id)));
                assert(all@.take(i + 1) =~= all@.take(i as int).push(id));
                assert forall|x: u64| #[trigger]
                    all@.take(i + 1).contains(x) <==> all@.take(i as int).contains(x) || x
                        == id by {
                    if all@.take(i as int).contains(x) {
                        let j = all@.take(i as int).index_of(x);
                        assert(all@.take(i + 1)[j] == x);
                    }
                    assert(all@.take(i + 1)[i as int] == id);
                }
            }
            match records.props_of(id) {
                Some(props) => {
                    match props.get(name) {
                        Some(v) => {
                            match encode_property_value(v) {
                                Some(e) => {
                                    let key: Vec<u8> = node_prop_index_key(
                                        s,
                                        p,
                                        e.as_slice(),
                                        id,
                                    );
                                    let ghost built = key@;
                                    self.index.insert(key);
                                    proof {
                                        assert(is_entry_key(built));
                                        lemma_entries_apart(
                                            old_index,
                                            self.index,
                                            s,
                                            p,
                                            e@,
                                            id,
                                        );
                                    }
                                },
                                None => {},
                            }
                        },
                        None => {},
                    }
                },
                None => {},
            }
            i = i + 1;
        }
        proof {
            assert(all@.take(i as int) =~= all@);
        }
    }

    /// Defines an index or constraint on a property of a scope, where the
    /// members satisfy it.
    pub(crate) fn define<R: Records>(
        &mut self,
        records: &R,
        keys: &mut Names,
        scope: &str,
        name: &str,
        flags: u8,
        h: Ghost<Holding>,
    ) -> (r: Result<(), Error>)
        requires
            old(self).matches(h@, old(keys)@),
            old(keys).wf(),
            recorded(*records, h@),
            old(self).scopes@.len() < u32::MAX,
            old(keys)@.len() < u32::MAX,
        ensures
            r is Ok <==> has_def(
                old(self).scopes@,
                old(keys)@,
                old(self).defs@,
                scope@,
                name@,
                flags,
            ) || !(number_of_name(old(self).scopes@, scope@) matches Some(s) && unmet(
                h@,
                s,
                name@,
                flags,
            )),
            r matches Err(e) ==> {
                &&& *final(self) == *old(self)
                &&& *final(keys) == *old(keys)
                &&& exists|s: u32, id: u64|
                    {
                        &&& number_of_name(old(self).scopes@, scope@) == Some(s)
                        &&& #[trigger] h@.dom().contains((s, id))
                        &&& reports(e, scope@, name@, flags, h@[(s, id)])
                    }
            },
            r is Ok ==> {
                &&& final(self).matches(h@, final(keys)@)
                &&& final(keys).wf()
                &&& final(keys)@ == with_name(old(keys)@, name@)
                &&& final(self).scopes@ == with_name(old(self).scopes@, scope@)
                &&& final(self).auto == old(self).auto
                &&& old(self).defines(*final(self), h@, final(keys)@, old(keys)@, scope@, name@, flags)
            },
    {
        let ghost before = *self;
        let ghost first = keys@;
        match self.scopes.number(scope) {
            Some(s) => {
                if let Some(p) = keys.number(name) {
                    if let Some(i) = self.def_position(s, p) {
                        if self.defs[i].flags == flags {
                            proof {
                                assert(self.defs@[i as int] == IndexDef {
                                    scope: s,
                                    prop: p,
                                    flags,
                                });
                            }
                            return Ok(());
                        }
                        proof {
                            lemma_defined(self.defs@, s, p, i as int);
                        }
                    }
                }
                proof {
                    if has_def(self.scopes@, keys@, self.defs@, scope@, name@, flags) {
                        let p = number_of_name(keys@, name@)->0;
                        let d = IndexDef { scope: s, prop: p, flags };
                        let k = self.defs@.index_of(d);
                        assert(self.defs@[k] == d);
                        assert(defined_at(self.defs@, s, p, k));
                        lemma_defined(self.defs@, s, p, k);
                    }
                }
                if let Some(e) = self.clash(records, s, scope, name, flags, h) {
                    return Err(e);
                }
            },
            None => {},
        }
        let s: u32 = self.scopes.number_or_add(scope);
        let p: u32 = keys.number_or_add(name);
        let ghost names = keys@;
        proof {
            lemma_with_name(first, name@, name@);
            lemma_with_name(before.scopes@, scope@, scope@);
            assert(first.is_prefix_of(names));
            assert(*self == Catalog { scopes: self.scopes, ..before });
            self.lemma_more_scopes(before, h@, first);
            self.lemma_more_names(h@, first, names);
        }
        let ghost mid = *self;
        self.put_def(IndexDef { scope: s, prop: p, flags }, Ghost(names));
        let ghost put = *self;
        self.backfill(records, s, p, name, h, Ghost(names));
        proof {
            let h0 = h@;
            assert forall|t: u32, q: PropKeyId, e: Seq<u8>, x: u64|
                #![trigger self.index.has(prop_key(t, q, e, x))]
                #![trigger has_encoded(h0, names, t, q, e, x)]
                e != seq![0u8] implies (self.index.has(prop_key(t, q, e, x)) <==> self.due(
                h0,
                names,
                t,
                q,
                e,
                x,
            )) by {
                assert(mid.index.has(prop_key(t, q, e, x)) <==> mid.due(h0, names, t, q, e, x));
                assert(defined(self.defs@, t, q) <==> defined(mid.defs@, t, q) || (t == s && q
                    == p));
            }
            assert forall|t: u32, q: PropKeyId, x: u64| #[trigger]
                self.marked(t, q, x) == (mid.marked(t, q, x) || (t == s && q == p && has_encoded(
                    h0,
                    names,
                    s,
                    p,
                    seq![0u8],
                    x,
                ))) by {
                assert(self.index.has(prop_key(t, q, seq![0u8], x)) <==> put.index.has(
                    prop_key(t, q, seq![0u8], x),
                ) || (t == s && q == p && has_encoded(h0, names, s, p, seq![0u8], x)));
            }
            assert forall|t: u32, q: PropKeyId, x: u64| #[trigger]
                self.marked(t, q, x) implies has_encoded(h0, names, t, q, seq![0u8], x) && defined(
                self.defs@,
                t,
                q,
            ) by {
                assert(mid.marked(t, q, x) || (t == s && q == p));
            }
            assert(self.index_matches(h0, names));
            assert(self.members_match(h0));
            assert forall|t: u32, q: PropKeyId, x: u64| before.marked(t, q, x) == #[trigger] mid.marked(
                t,
                q,
                x,
            ) by {}
        }
        Ok(())
    }

    /// How the definitions and the entries of null values change where an
    /// index or constraint is defined.
    pub open spec fn defines(
        &self,
        now: Catalog,
        h: Holding,
        keys: Seq<Seq<char>>,
        first: Seq<Seq<char>>,
        scope: Seq<char>,
        name: Seq<char>,
        flags: u8,
    ) -> bool {
        let s = number_of_name(now.scopes@, scope)->0;
        let p = number_of_name(keys, name)->0;
        if has_def(self.scopes@, first, self.defs@, scope, name, flags) {
            &&& now.defs@ == self.defs@
            &&& forall|t: u32, q: PropKeyId, x: u64| #[trigger]
                now.marked(t, q, x) == self.marked(t, q, x)
        } else {
            &&& now.defs@ == with_def(self.defs@, IndexDef { scope: s, prop: p, flags })
            &&& forall|t: u32, q: PropKeyId, x: u64| #[trigger]
                now.marked(t, q, x) == (self.marked(t, q, x) || (t == s && q == p && has_encoded(
                    h,
                    keys,
                    s,
                    p,
                    seq![0u8],
                    x,
                )))
        }
    }

    /// Takes the entries of a property of a scope out of the index: all of
    /// them, or, where every value is indexed anyway, those of null values.
    fn clear_entries(&mut self, s: u32, p: PropKeyId)
        requires
            old(self).index.wf(),
            forall|key: Seq<u8>| #[trigger] old(self).index.has(key) ==> is_entry_key(key),
        ensures
            *final(self) == (Catalog { index: final(self).index, ..*old(self) }),
            final(self).index.wf(),
            forall|key: Seq<u8>| #[trigger]
                final(self).index.has(key) ==> old(self).index.has(key),
            forall|t: u32, q: PropKeyId, e: Seq<u8>, x: u64| #[trigger]
                final(self).index.has(prop_key(t, q, e, x)) <==> old(self).index.has(
                    prop_key(t, q, e, x),
                ) && !(t == s && q == p && (old(self).auto ==> e == seq![0u8])),
    {
        let ghost before = *self;
        let mut prefix: Vec<u8> = Vec::new();
        push_be(&mut prefix, s as u64, 4);
        push_be(&mut prefix, p as u64, 4);
        assert(prefix@ =~= entry_head(s, p));
        let (lo, hi): (usize, usize) = self.index.scan(prefix.as_slice());
        let ghost ks = self.index.keys@;
        let mut doomed: Vec<Vec<u8>> = Vec::new();
        let mut i: usize = lo;
        while i < hi
            invariant
                *self == before,
                ks == self.index.keys@,
                forall|key: Seq<u8>| #[trigger] before.index.has(key) ==> is_entry_key(key),
                prefix@ == entry_head(s, p),
                lo <= i <= hi <= ks.len(),
                forall|k: int|
                    0 <= k < ks.len() ==> (lo <= k < hi <==> begins(prefix@, #[trigger] ks[k]@)),
                forall|e: Seq<u8>, x: u64| #[trigger]
                    holds_key(doomed@, prop_key(s, p, e, x)) <==> below_key(
                        ks.skip(lo as int),
                        i - lo,
                        prop_key(s, p, e, x),
                    ) && (before.auto ==> e == seq![0u8]),
                forall|k: Seq<u8>| #[trigger]
                    holds_key(doomed@, k) ==> exists|e: Seq<u8>, x: u64| k == prop_key(s, p, e, x),
            decreases hi - i,
        {
            let ghost had = doomed@;
            let ghost key = ks[i as int]@;
            let ghost (d, x) = choose|d: Seq<u8>, x: u64| key == #[trigger] prop_key(s, p, d, x);
            proof {
                assert(self.index.has(key));
                let (t, q, d2, x2) = choose|t: u32, q: PropKeyId, d2: Seq<u8>, x2: u64|
                    key == #[trigger] prop_key(t, q, d2, x2);
                assert(begins(prefix@, key));
                lemma_entry_prefix(s, p, t, q, d2, x2);
                assert(key == prop_key(s, p, d2, x2));
                lemma_entry_prefix(s, p, s, p, d, x);
            }
            let n: usize = self.index.keys[i].len();
            let mut doom: bool = true;
            if self.auto {
                doom = n == 17 && self.index.keys[i][8] == ENCODED_NULL;
                proof {
                    assert(key.subrange(8, 8 + d.len() as int) == d);
                    if d.len() == 1 {
                        assert(d[0] == key[8]);
                        if d[0] == 0 {
                            assert(d =~= seq![0u8]);
                        }
                    }
                    if d == seq![0u8] {
                        assert(d.len() == 1 && d[0] == 0);
                    }
                }
            }
            assert(doom == (before.auto ==> d == seq![0u8]));
            if doom {
                let mut copy: Vec<u8> = Vec::new();
                push_all(&mut copy, self.index.keys[i].as_slice());
                assert(copy@ =~= key);
                doomed.push(copy);
            }
            proof {
                let rest = ks.skip(lo as int);
                if doom {
                    assert(doomed@.drop_last() =~= had);
                }
                assert forall|e: Seq<u8>, y: u64| #[trigger]
                    holds_key(doomed@, prop_key(s, p, e, y)) <==> below_key(
                        rest,
                        i + 1 - lo,
                        prop_key(s, p, e, y),
                    ) && (before.auto ==> e == seq![0u8]) by {
                    let k = prop_key(s, p, e, y);
                    assert(rest[i - lo] == ks[i as int]);
                    if k == key {
                        lemma_prop_key_injective(s, p, e, y, s, p, d, x);
                    }
                    lemma_holds_push(had, doomed@, k, doom, key);
                    lemma_below_step(rest, i - lo, k);
                }
                assert forall|k: Seq<u8>| #[trigger] holds_key(doomed@, k) implies exists|
                    e: Seq<u8>,
                    y: u64,
                |
                    k == prop_key(s, p, e, y) by {
                    lemma_holds_push(had, doomed@, k, doom, key);
                    if k == key {
                        assert(k == prop_key(s, p, d, x));
                    }
                }
            }
            i = i + 1;
        }
        let mut j: usize = 0;
        while j < doomed.len()
            invariant
                j <= doomed@.len(),
                *self == (Catalog { index: self.index, ..before }),
                self.index.wf(),
                forall|k: Seq<u8>| #[trigger]
                    self.index.has(k) <==> before.index.has(k) && !below_key(
                        doomed@,
                        j as int,
                        k,
                    ),
            decreases doomed@.len() - j,
        {
            let ghost old_index = self.index;
            self.index.remove(doomed[j].as_slice());
            proof {
                assert forall|k: Seq<u8>| #[trigger]
                    self.index.has(k) <==> before.index.has(k) && !below_key(
                        doomed@,
                        j + 1,
                        k,
                    ) by {
                    lemma_below_step(doomed@, j as int, k);
                    assert(old_index.has(k) <==> before.index.has(k) && !below_key(
                        doomed@,
                        j as int,
                        k,
                    ));
                }
            }
            j = j + 1;
        }
        proof {
            let rest = ks.skip(lo as int);
            assert forall|t: u32, q: PropKeyId, e: Seq<u8>, x: u64| #[trigger]
                self.index.has(prop_key(t, q, e, x)) <==> before.index.has(prop_key(t, q, e, x))
                    && !(t == s && q == p && (before.auto ==> e == seq![0u8])) by {
                let k = prop_key(t, q, e, x);
                assert(below_key(doomed@, doomed@.len() as int, k) <==> holds_key(doomed@, k));
                if holds_key(doomed@, k) {
                    let (e2, x2) = choose|e2: Seq<u8>, x2: u64| k == prop_key(s, p, e2, x2);
                    lemma_prop_key_injective(t, q, e, x, s, p, e2, x2);
                }
                if before.index.has(k) && t == s && q == p {
                    let n = choose|n: int| 0 <= n < ks.len() && (#[trigger] ks[n])@ == k;
                    lemma_entry_prefix(s, p, s, p, e, x);
                    assert(begins(prefix@, ks[n]@));
                    assert(rest[n - lo] == ks[n]);
                    assert(below_key(rest, hi - lo, k));
                }
            }
        }
    }

    /// Numbers the names of a scope and a property.
    pub(crate) fn number_names(
        &mut self,
        keys: &mut Names,
        scope: &str,
        name: &str,
        h: Ghost<Holding>,
    ) -> (r: (u32, u32))
        requires
            old(self).matches(h@, old(keys)@),
            old(keys).wf(),
            old(self).scopes@.len() < u32::MAX,
            old(keys)@.len() < u32::MAX,
        ensures
            final(self).matches(h@, final(keys)@),
            final(keys).wf(),
            final(keys)@ == with_name(old(keys)@, name@),
            final(self).scopes@ == with_name(old(self).scopes@, scope@),
            final(self).auto == old(self).auto,
            final(self).defs@ == old(self).defs@,
            forall|t: u32, q: PropKeyId, x: u64| #[trigger]
                final(self).marked(t, q, x) == old(self).marked(t, q, x),
            number_of_name(final(self).scopes@, scope@) == Some(r.0),
            number_of_name(final(keys)@, name@) == Some(r.1),
    {
        let ghost before = *self;
        let ghost first = keys@;
        let s: u32 = self.scopes.number_or_add(scope);
        let p: u32 = keys.number_or_add(name);
        proof {
            lemma_with_name(first, name@, name@);
            lemma_with_name(before.scopes@, scope@, scope@);
            assert(*self == Catalog { scopes: self.scopes, ..before });
            self.lemma_more_scopes(before, h@, first);
            self.lemma_more_names(h@, first, keys@);
        }
        (s, p)
    }

    /// Takes the definition of an index or constraint of this kind away, where
    /// it is there, with the entries that only it maintains.
    pub(crate) fn undefine(
        &mut self,
        keys: &mut Names,
        scope: &str,
        name: &str,
        flags: u8,
        h: Ghost<Holding>,
    )
        requires
            old(self).matches(h@, old(keys)@),
            old(keys).wf(),
            old(self).scopes@.len() < u32::MAX,
            old(keys)@.len() < u32::MAX,
        ensures
            final(self).matches(h@, final(keys)@),
            final(keys).wf(),
            final(keys)@ == with_name(old(keys)@, name@),
            final(self).scopes@ == with_name(old(self).scopes@, scope@),
            final(self).auto == old(self).auto,
            old(self).undefines(*final(self), final(keys)@, old(keys)@, scope@, name@, flags),
    {
        let ghost before = *self;
        let ghost first = keys@;
        let ghost h0 = h@;
        let s: u32 = self.scopes.number_or_add(scope);
        let p: u32 = keys.number_or_add(name);
        let ghost names = keys@;
        proof {
            lemma_with_name(first, name@, name@);
            lemma_with_name(before.scopes@, scope@, scope@);
            assert(first.is_prefix_of(names));
            assert(*self == Catalog { scopes: self.scopes, ..before });
            self.lemma_more_scopes(before, h0, first);
            self.lemma_more_names(h0, first, names);
        }
        let ghost mid = *self;
        assert forall|t: u32, q: PropKeyId, x: u64| before.marked(t, q, x) == #[trigger] mid.marked(
            t,
            q,
            x,
        ) by {}
        match self.def_position(s, p) {
            Some(i) => {
                proof {
                    lemma_defined(before.defs@, s, p, i as int);
                    assert(number_of_name(before.scopes@, scope@) == Some(s)) by {
                        assert(before.defs@[i as int].scope < before.scopes@.len());
                        assert(before.scopes@.contains(scope@)) by {
                            assert(self.scopes@[s as int] == scope@);
                            assert(before.scopes@[s as int] == scope@);
                        }
                    }
                    assert(number_of_name(first, name@) == Some(p)) by {
                        assert(before.defs@[i as int].prop < first.len());
                        assert(first.contains(name@)) by {
                            assert(names[p as int] == name@);
                            assert(first[p as int] == name@);
                        }
                    }
                    let d = IndexDef { scope: s, prop: p, flags };
                    if before.defs@.contains(d) {
                        let k = before.defs@.index_of(d);
                        assert(before.defs@[k] == d);
                        assert(defined_at(before.defs@, s, p, k));
                        lemma_defined(before.defs@, s, p, k);
                    }
                }
                if self.defs[i].flags == flags {
                    proof {
                        assert(before.defs@[i as int] == IndexDef { scope: s, prop: p, flags });
                        assert(before.defs@.contains(IndexDef { scope: s, prop: p, flags }));
                    }
                    self.defs.remove(i);
                    let ghost cut = *self;
                    self.clear_entries(s, p);
                    proof {
                        let (was, now) = (before.defs@, self.defs@);
                        assert forall|t: u32, q: PropKeyId| #[trigger]
                            defined(now, t, q) <==> defined(was, t, q) && !(t == s && q == p) by {
                            if defined(now, t, q) {
                                let k = choose|k: int|
                                    0 <= k < now.len() && (#[trigger] now[k]).scope == t
                                        && now[k].prop == q;
                                let o = if k < i {
                                    k
                                } else {
                                    k + 1
                                };
                                assert(was[o] == now[k]);
                                if o < i {
                                    assert(was[o].scope != was[i as int].scope || was[o].prop
                                        != was[i as int].prop);
                                } else {
                                    assert(was[i as int].scope != was[o].scope
                                        || was[i as int].prop != was[o].prop);
                                }
                            }
                            if defined(was, t, q) && !(t == s && q == p) {
                                let k = choose|k: int|
                                    0 <= k < was.len() && (#[trigger] was[k]).scope == t
                                        && was[k].prop == q;
                                if k < i {
                                    assert(was[k] == now[k]);
                                } else {
                                    assert(was[k] == now[k - 1]);
                                }
                            }
                        }
                        assert forall|a: int, b: int| 0 <= a < b < now.len() implies (
                        #[trigger] now[a]).scope != (#[trigger] now[b]).scope || now[a].prop
                            != now[b].prop by {
                            let x = if a < i {
                                a
                            } else {
                                a + 1
                            };
                            let y = if b < i {
                                b
                            } else {
                                b + 1
                            };
                            assert(now[a] == was[x] && now[b] == was[y]);
                        }
                        assert forall|k: int| 0 <= k < now.len() implies (#[trigger] now[k]).scope
                            < self.scopes@.len() && now[k].prop < names.len() by {
                            let x = if k < i {
                                k
                            } else {
                                k + 1
                            };
                            assert(now[k] == was[x]);
                        }
                        assert forall|t: u32, q: PropKeyId, e: Seq<u8>, x: u64|
                            #![trigger self.index.has(prop_key(t, q, e, x))]
                            #![trigger has_encoded(h0, names, t, q, e, x)]
                            e != seq![0u8] implies (self.index.has(prop_key(t, q, e, x))
                            <==> self.due(h0, names, t, q, e, x)) by {
                            assert(mid.index.has(prop_key(t, q, e, x)) <==> mid.due(
                                h0,
                                names,
                                t,
                                q,
                                e,
                                x,
                            ));
                            assert(defined(now, t, q) <==> defined(was, t, q) && !(t == s && q
                                == p));
                        }
                        assert forall|t: u32, q: PropKeyId, x: u64| #[trigger]
                            self.marked(t, q, x) == (mid.marked(t, q, x) && !(t == s && q
                                == p)) by {
                            assert(self.index.has(prop_key(t, q, seq![0u8], x)) <==> cut.index.has(
                                prop_key(t, q, seq![0u8], x),
                            ) && !(t == s && q == p));
                        }
                        assert forall|t: u32, q: PropKeyId, x: u64| #[trigger]
                            self.marked(t, q, x) implies has_encoded(
                            h0,
                            names,
                            t,
                            q,
                            seq![0u8],
                            x,
                        ) && defined(self.defs@, t, q) by {
                            assert(mid.marked(t, q, x));
                        }
                        assert(self.index_matches(h0, names));
                        assert(self.members_match(h0));
                    }
                }
            },
            None => {
                proof {
                    if has_def(before.scopes@, first, before.defs@, scope@, name@, flags) {
                        let (s2, p2) = (
                            number_of_name(before.scopes@, scope@)->0,
                            number_of_name(first, name@)->0,
                        );
                        let d = IndexDef { scope: s2, prop: p2, flags };
                        let k = before.defs@.index_of(d);
                        assert(before.defs@[k] == d);
                        assert(defined(before.defs@, s, p));
                    }
                }
            },
        }
    }

    /// How the definitions and the entries of null values change where the
    /// definition of an index or constraint is taken away.
    pub open spec fn undefines(
        &self,
        now: Catalog,
        keys: Seq<Seq<char>>,
        first: Seq<Seq<char>>,
        scope: Seq<char>,
        name: Seq<char>,
        flags: u8,
    ) -> bool {
        let s = number_of_name(now.scopes@, scope)->0;
        let p = number_of_name(keys, name)->0;
        if has_def(self.scopes@, first, self.defs@, scope, name, flags) {
            &&& now.defs@ == without_def(self.defs@, s, p)
            &&& forall|t: u32, q: PropKeyId, x: u64| #[trigger]
                now.marked(t, q, x) == (self.marked(t, q, x) && !(t == s && q == p))
        } else {
            &&& now.defs@ == self.defs@
            &&& forall|t: u32, q: PropKeyId, x: u64| #[trigger]
                now.marked(t, q, x) == self.marked(t, q, x)
        }
    }
}

proof fn lemma_holds_push(
    before: Seq<Vec<u8>>,
    now: Seq<Vec<u8>>,
    k: Seq<u8>,
    pushed: bool,
    key: Seq<u8>,
)
    requires
        pushed ==> now.len() == before.len() + 1 && now.drop_last() == before && now.last()@
            == key,
        !pushed ==> now == before,
    ensures
        holds_key(now, k) <==> holds_key(before, k) || (pushed && k == key),
{
    if pushed {
        if holds_key(before, k) {
            let i = choose|i: int| 0 <= i < before.len() && (#[trigger] before[i])@ == k;
            assert(now.drop_last()[i] == now[i]);
        }
        if holds_key(now, k) {
            let i = choose|i: int| 0 <= i < now.len() && (#[trigger] now[i])@ == k;
            if i < before.len() {
                assert(now.drop_last()[i] == now[i]);
                assert(before[i]@ == k);
            }
        }
        assert(now[before.len() as int]@ == key);
    }
}

proof fn lemma_below_step(ks: Seq<Vec<u8>>, i: int, k: Seq<u8>)
    requires
        0 <= i < ks.len(),
    ensures
        below_key(ks, i + 1, k) <==> below_key(ks, i, k) || ks[i]@ == k,
{
    if below_key(ks, i, k) {
        let j = choose|j: int| 0 <= j < i && (#[trigger] ks[j])@ == k;
        assert(0 <= j < i + 1 && ks[j]@ == k);
    }
}

} // verus!
