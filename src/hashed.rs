//! The hashed collections that the expander and the colorer accumulate into:
//! `ahash`'s set and map, seen through what they hold.
use vstd::prelude::*;

verus! {

/// `ahash`'s hash set, opaque: what it holds is named by `set_items`.
#[verifier::external_type_specification]
#[verifier::external_body]
#[verifier::reject_recursive_types(T)]
#[verifier::reject_recursive_types(S)]
pub struct ExAHashSet<T, S>(ahash::AHashSet<T, S>);

/// `ahash`'s hash map, opaque: what it holds is named by `map_entries`.
#[verifier::external_type_specification]
#[verifier::external_body]
#[verifier::reject_recursive_types(K)]
#[verifier::reject_recursive_types(V)]
#[verifier::reject_recursive_types(S)]
pub struct ExAHashMap<K, V, S>(ahash::AHashMap<K, V, S>);

/// The hasher state that `ahash`'s collections are built with, carried through opaque.
#[verifier::external_type_specification]
#[verifier::external_body]
pub struct ExRandomState(ahash::RandomState);

/// The indices a hashed index set holds.
pub uninterp spec fn set_items(s: ahash::AHashSet<usize>) -> Set<usize>;

/// The key/value pairs a hashed count map holds.
pub uninterp spec fn map_entries(m: ahash::AHashMap<usize, usize>) -> Map<usize, usize>;

/// Relies on `AHashSet::new`: a new set is empty.
#[verifier::external_body]
pub(crate) fn new_index_set() -> (r: ahash::AHashSet<usize>)
    ensures
        set_items(r) == Set::<usize>::empty(),
{
    ahash::AHashSet::new()
}

/// Relies on `HashSet::insert` (through `AHashSet`'s `DerefMut`): the element
/// is added to the set at position `i`; the other sets are left alone.
#[verifier::external_body]
pub(crate) fn insert_at(sets: &mut Vec<ahash::AHashSet<usize>>, i: usize, x: usize)
    requires
        i < old(sets)@.len(),
    ensures
        final(sets)@.len() == old(sets)@.len(),
        set_items(final(sets)@[i as int]) == set_items(old(sets)@[i as int]).insert(x),
        forall|j: int|
            0 <= j < old(sets)@.len() && j != i ==> #[trigger] final(sets)@[j] == old(sets)@[j],
{
    sets[i].insert(x);
}

/// Relies on `AHashSet`'s `IntoIterator` and `Vec`'s `FromIterator`: every
/// element comes out once, in an order the hasher picks.
#[verifier::external_body]
pub(crate) fn set_to_vec(s: &ahash::AHashSet<usize>) -> (r: Vec<usize>)
    ensures
        r@.no_duplicates(),
        forall|x: usize| r@.contains(x) <==> set_items(*s).contains(x),
{
    s.iter().copied().collect()
}

/// Relies on `AHashMap::new`: a new map is empty.
#[verifier::external_body]
pub(crate) fn new_count_map() -> (r: ahash::AHashMap<usize, usize>)
    ensures
        map_entries(r).dom() == Set::<usize>::empty(),
{
    ahash::AHashMap::new()
}

/// Relies on `HashMap::clear` (through `AHashMap`'s `DerefMut`): the map is emptied.
#[verifier::external_body]
pub(crate) fn clear_map(m: &mut ahash::AHashMap<usize, usize>)
    ensures
        map_entries(*final(m)).dom() == Set::<usize>::empty(),
{
    m.clear();
}

/// Relies on `AHashMap::get`: the value under the key, if there is one.
#[verifier::external_body]
pub(crate) fn map_get(m: &ahash::AHashMap<usize, usize>, k: usize) -> (r: Option<usize>)
    ensures
        r == (if map_entries(*m).contains_key(k) {
            Some(map_entries(*m)[k])
        } else {
            None::<usize>
        }),
{
    m.get(&k).copied()
}

/// Relies on `AHashMap::insert`: the key now maps to the value.
#[verifier::external_body]
pub(crate) fn map_insert(m: &mut ahash::AHashMap<usize, usize>, k: usize, v: usize)
    ensures
        map_entries(*final(m)) == map_entries(*old(m)).insert(k, v),
{
    m.insert(k, v);
}

/// Relies on `HashMap::contains_key` (through `AHashMap`'s `Deref`).
#[verifier::external_body]
pub(crate) fn map_has(m: &ahash::AHashMap<usize, usize>, k: usize) -> (r: bool)
    ensures
        r == map_entries(*m).contains_key(k),
{
    m.contains_key(&k)
}

} // verus!
