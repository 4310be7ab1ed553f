//! Hashed collections of node ids, node pairs and byte strings.

use vstd::prelude::*;

verus! {

/// The hasher state of the `ahash` crate.
#[verifier::external_type_specification]
#[verifier::external_body]
pub struct ExRandomState(ahash::RandomState);

/// The hash set of the `ahash` crate.
#[verifier::external_type_specification]
#[verifier::external_body]
#[verifier::reject_recursive_types(T)]
#[verifier::reject_recursive_types(S)]
pub struct ExAHashSet<T, S>(ahash::AHashSet<T, S>);

/// The hash map of the `ahash` crate.
#[verifier::external_type_specification]
#[verifier::external_body]
#[verifier::reject_recursive_types(K)]
#[verifier::reject_recursive_types(V)]
#[verifier::reject_recursive_types(S)]
pub struct ExAHashMap<K, V, S>(ahash::AHashMap<K, V, S>);

/// The ids that a set holds.
pub uninterp spec fn ids_in(set: ahash::AHashSet<u64>) -> Set<u64>;

/// The pairs that a set holds.
pub uninterp spec fn pairs_in(set: ahash::AHashSet<(u64, u64)>) -> Set<(u64, u64)>;

/// The depths that a map holds.
pub uninterp spec fn depths_in(depths: ahash::AHashMap<u64, u8>) -> Map<u64, u8>;

/// An empty set. Trusted: `AHashSet::new` makes a set without items.
#[verifier::external_body]
pub(crate) fn new_ids() -> (set: ahash::AHashSet<u64>)
    ensures
        ids_in(set) == Set::<u64>::empty(),
{
    ahash::AHashSet::new()
}

/// Adds an id. Trusted: `AHashSet::insert`, which is that of the standard hash
/// set, adds the item and tells whether it was new.
#[verifier::external_body]
pub(crate) fn insert_id(set: &mut ahash::AHashSet<u64>, id: u64) -> (new: bool)
    ensures
        ids_in(*final(set)) == ids_in(*old(set)).insert(id),
        new == !ids_in(*old(set)).contains(id),
{
    set.insert(id)
}

/// Takes an id out. Trusted: `AHashSet::remove`, which is that of the standard
/// hash set, removes the item where it is there.
#[verifier::external_body]
pub(crate) fn remove_id(set: &mut ahash::AHashSet<u64>, id: u64)
    ensures
        ids_in(*final(set)) == ids_in(*old(set)).remove(id),
{
    set.remove(&id);
}

/// Whether an id is in a set. Trusted: `AHashSet::contains`, which is that of
/// the standard hash set, tells whether the item is there.
#[verifier::external_body]
pub(crate) fn contains_id(set: &ahash::AHashSet<u64>, id: u64) -> (found: bool)
    ensures
        found == ids_in(*set).contains(id),
{
    set.contains(&id)
}

/// An empty set of pairs. Trusted: `AHashSet::new` makes a set without items.
#[verifier::external_body]
pub(crate) fn new_pairs() -> (set: ahash::AHashSet<(u64, u64)>)
    ensures
        pairs_in(set) == Set::<(u64, u64)>::empty(),
{
    ahash::AHashSet::new()
}

/// Adds a pair. Trusted: `AHashSet::insert`, which is that of the standard hash
/// set, adds the item.
#[verifier::external_body]
pub(crate) fn insert_pair(set: &mut ahash::AHashSet<(u64, u64)>, a: u64, b: u64)
    ensures
        pairs_in(*final(set)) == pairs_in(*old(set)).insert((a, b)),
{
    set.insert((a, b));
}

/// Whether a pair is in a set. Trusted: `AHashSet::contains`, which is that of
/// the standard hash set, tells whether the item is there.
#[verifier::external_body]
pub(crate) fn contains_pair(set: &ahash::AHashSet<(u64, u64)>, a: u64, b: u64) -> (found: bool)
    ensures
        found == pairs_in(*set).contains((a, b)),
{
    set.contains(&(a, b))
}

/// An empty map. Trusted: `AHashMap::new` makes a map without entries.
#[verifier::external_body]
pub(crate) fn new_depths() -> (depths: ahash::AHashMap<u64, u8>)
    ensures
        depths_in(depths).dom() == Set::<u64>::empty(),
{
    ahash::AHashMap::new()
}

/// Maps an id to a depth. Trusted: `AHashMap::insert`, which is that of the
/// standard hash map, adds the entry or replaces its value.
#[verifier::external_body]
pub(crate) fn insert_depth(depths: &mut ahash::AHashMap<u64, u8>, id: u64, depth: u8)
    ensures
        depths_in(*final(depths)) == depths_in(*old(depths)).insert(id, depth),
{
    depths.insert(id, depth);
}

/// The depth of an id. Trusted: `AHashMap::get`, which is that of the standard
/// hash map, gives the value of the entry where there is one.
#[verifier::external_body]
pub(crate) fn get_depth(depths: &ahash::AHashMap<u64, u8>, id: u64) -> (depth: Option<u8>)
    ensures
        depth == (if depths_in(*depths).dom().contains(id) {
            Some(depths_in(*depths)[id])
        } else {
            None
        }),
{
    depths.get(&id).copied()
}

/// The byte strings that a set holds.
pub uninterp spec fn byte_strings_in(set: ahash::AHashSet<Vec<u8>>) -> Set<Seq<u8>>;

/// An empty set of byte strings. Trusted: `AHashSet::new` makes a set without items.
#[verifier::external_body]
pub(crate) fn new_byte_strings() -> (set: ahash::AHashSet<Vec<u8>>)
    ensures
        byte_strings_in(set) == Set::<Seq<u8>>::empty(),
{
    ahash::AHashSet::new()
}

/// Adds a byte string. Trusted: `AHashSet::insert`, which is that of the
/// standard hash set, adds the item and tells whether it was new.
#[verifier::external_body]
pub(crate) fn insert_byte_string(set: &mut ahash::AHashSet<Vec<u8>>, bytes: Vec<u8>) -> (new: bool)
    ensures
        byte_strings_in(*final(set)) == byte_strings_in(*old(set)).insert(bytes@),
        new == !byte_strings_in(*old(set)).contains(bytes@),
{
    set.insert(bytes)
}

} // verus!
