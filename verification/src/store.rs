//! Insertion-ordered storage for the graph, provided by the `indexmap` crate.
//!
//! Nothing in this module is proved: each function states what the
//! corresponding `indexmap` method does to the contents of the collection.

use indexmap::IndexMap;
use indexmap::IndexSet;
use vstd::prelude::*;

verus! {

/// `indexmap::IndexSet`, taken as an opaque type: nothing is known of a
/// value but what the functions below state.
#[verifier::external_type_specification]
#[verifier::external_body]
#[verifier::reject_recursive_types(T)]
#[verifier::reject_recursive_types(S)]
pub struct ExIndexSet<T, S>(IndexSet<T, S>);

/// `indexmap::IndexMap`, taken as an opaque type: nothing is known of a
/// value but what the functions below state.
#[verifier::external_type_specification]
#[verifier::external_body]
#[verifier::reject_recursive_types(K)]
#[verifier::reject_recursive_types(V)]
#[verifier::reject_recursive_types(S)]
pub struct ExIndexMap<K, V, S>(IndexMap<K, V, S>);

/// The elements of an ordered set, in their current order.
pub uninterp spec fn set_items(s: IndexSet<i32>) -> Seq<i32>;

/// The keys of an adjacency map, in their current order.
pub uninterp spec fn adjacency_keys(m: IndexMap<i32, IndexSet<i32>>) -> Seq<i32>;

/// The neighbor list stored under each key of an adjacency map.
pub uninterp spec fn adjacency_lists(m: IndexMap<i32, IndexSet<i32>>) -> Map<i32, Seq<i32>>;

/// The keys of a weight map, in their current order.
pub uninterp spec fn weight_keys(m: IndexMap<(i32, i32), i128>) -> Seq<(i32, i32)>;

/// The weight stored under each key of a weight map.
pub uninterp spec fn weight_values(m: IndexMap<(i32, i32), i128>) -> Map<(i32, i32), i128>;

/// The sequence obtained by moving the last element into position `i` and
/// dropping the last position.
pub open spec fn swap_removed<T>(s: Seq<T>, i: int) -> Seq<T>
    recommends
        0 <= i < s.len(),
{
    s.update(i, s.last()).drop_last()
}

/// `IndexSet::new`: a set without elements.
#[verifier::external_body]
pub(crate) fn set_new() -> (s: IndexSet<i32>)
    ensures
        set_items(s).len() == 0,
{
    IndexSet::new()
}

/// `IndexSet::insert`: an absent value is appended and `true` is returned; a
/// present value leaves the set as it was and `false` is returned.
#[verifier::external_body]
pub(crate) fn set_insert(s: &mut IndexSet<i32>, v: i32) -> (added: bool)
    ensures
        added == !set_items(*old(s)).contains(v),
        set_items(*final(s)) == if added {
            set_items(*old(s)).push(v)
        } else {
            set_items(*old(s))
        },
{
    s.insert(v)
}

/// `IndexSet::contains`: whether `v` is an element.
#[verifier::external_body]
pub(crate) fn set_contains(s: &IndexSet<i32>, v: i32) -> (found: bool)
    ensures
        found == set_items(*s).contains(v),
{
    s.contains(&v)
}

/// `IndexSet::swap_remove`: a present value is removed by moving the last
/// element into its place, and `true` is returned; an absent value leaves
/// the set as it was and `false` is returned.
#[verifier::external_body]
pub(crate) fn set_swap_remove(s: &mut IndexSet<i32>, v: i32) -> (removed: bool)
    ensures
        removed == set_items(*old(s)).contains(v),
        set_items(*final(s)) == if removed {
            swap_removed(set_items(*old(s)), set_items(*old(s)).index_of(v))
        } else {
            set_items(*old(s))
        },
{
    s.swap_remove(&v)
}

/// `IndexSet::iter`: the elements in their current order, copied out.
#[verifier::external_body]
pub(crate) fn set_to_vec(s: &IndexSet<i32>) -> (items: Vec<i32>)
    ensures
        items@ == set_items(*s),
{
    s.iter().copied().collect()
}

/// `IndexMap::new`: a map without entries.
#[verifier::external_body]
pub(crate) fn adjacency_new() -> (m: IndexMap<i32, IndexSet<i32>>)
    ensures
        adjacency_keys(m).len() == 0,
        adjacency_lists(m).dom() == Set::<i32>::empty(),
{
    IndexMap::new()
}

/// `IndexMap::contains_key`: whether an entry is stored under `u`.
#[verifier::external_body]
pub(crate) fn adjacency_contains_key(m: &IndexMap<i32, IndexSet<i32>>, u: i32) -> (found: bool)
    ensures
        found == adjacency_lists(*m).dom().contains(u),
{
    m.contains_key(&u)
}

/// `IndexMap::insert`: a new key is placed last in the order; a key that is
/// present keeps its place. Either way the value stored under it is `s`.
#[verifier::external_body]
pub(crate) fn adjacency_insert(m: &mut IndexMap<i32, IndexSet<i32>>, u: i32, s: IndexSet<i32>)
    ensures
        adjacency_keys(*final(m)) == if adjacency_lists(*old(m)).dom().contains(u) {
            adjacency_keys(*old(m))
        } else {
            adjacency_keys(*old(m)).push(u)
        },
        adjacency_lists(*final(m)) == adjacency_lists(*old(m)).insert(u, set_items(s)),
{
    m.insert(u, s);
}

/// `IndexMap::get`: the neighbor set stored under `u`, if there is one.
#[verifier::external_body]
pub(crate) fn adjacency_get<'a>(
    m: &'a IndexMap<i32, IndexSet<i32>>,
    u: i32,
) -> (r: Option<&'a IndexSet<i32>>)
    ensures
        r.is_some() == adjacency_lists(*m).dom().contains(u),
        r.is_some() ==> set_items(*r.unwrap()) == adjacency_lists(*m)[u],
{
    m.get(&u)
}

/// `IndexMap::get_mut` on a key that is present: a mutable borrow of the
/// neighbor set stored under `u`. The keys and the other sets stay as they
/// were.
#[verifier::external_body]
pub(crate) fn adjacency_get_mut<'a>(
    m: &'a mut IndexMap<i32, IndexSet<i32>>,
    u: i32,
) -> (s: &'a mut IndexSet<i32>)
    requires
        adjacency_lists(*old(m)).dom().contains(u),
    ensures
        set_items(*s) == adjacency_lists(*old(m))[u],
        adjacency_keys(*final(m)) == adjacency_keys(*old(m)),
        adjacency_lists(*final(m)) == adjacency_lists(*old(m)).insert(u, set_items(*final(s))),
{
    m.get_mut(&u).unwrap()
}

/// `IndexMap::swap_remove`: the entry under a present key is removed by
/// moving the last entry into its place; an absent key leaves the map as it
/// was. The result tells whether an entry was removed.
#[verifier::external_body]
pub(crate) fn adjacency_swap_remove(m: &mut IndexMap<i32, IndexSet<i32>>, u: i32) -> (removed: bool)
    ensures
        removed == adjacency_lists(*old(m)).dom().contains(u),
        adjacency_keys(*final(m)) == if removed {
            swap_removed(adjacency_keys(*old(m)), adjacency_keys(*old(m)).index_of(u))
        } else {
            adjacency_keys(*old(m))
        },
        adjacency_lists(*final(m)) == adjacency_lists(*old(m)).remove(u),
{
    m.swap_remove(&u).is_some()
}

/// `IndexMap::get_index`: the key at position `i` of the order, if `i` is
/// below the number of entries.
#[verifier::external_body]
pub(crate) fn adjacency_key_at<'a>(
    m: &'a IndexMap<i32, IndexSet<i32>>,
    i: usize,
) -> (r: Option<&'a i32>)
    ensures
        r.is_some() == (i < adjacency_keys(*m).len()),
        r.is_some() ==> *r.unwrap() == adjacency_keys(*m)[i as int],
{
    m.get_index(i).map(|(k, _)| k)
}

/// `IndexMap::keys`: the keys in their current order, copied out.
#[verifier::external_body]
pub(crate) fn adjacency_key_vec(m: &IndexMap<i32, IndexSet<i32>>) -> (keys: Vec<i32>)
    ensures
        keys@ == adjacency_keys(*m),
{
    m.keys().copied().collect()
}

/// `IndexMap::new`: a map without entries.
#[verifier::external_body]
pub(crate) fn weights_new() -> (m: IndexMap<(i32, i32), i128>)
    ensures
        weight_keys(m).len() == 0,
        weight_values(m).dom() == Set::<(i32, i32)>::empty(),
{
    IndexMap::new()
}

/// `IndexMap::contains_key`: whether a weight is stored under `key`.
#[verifier::external_body]
pub(crate) fn weights_contains_key(m: &IndexMap<(i32, i32), i128>, key: (i32, i32)) -> (found: bool)
    ensures
        found == weight_values(*m).dom().contains(key),
{
    m.contains_key(&key)
}

/// `IndexMap::insert`: a new key is placed last in the order; a key that is
/// present keeps its place. Either way the weight stored under it is `w`.
#[verifier::external_body]
pub(crate) fn weights_insert(m: &mut IndexMap<(i32, i32), i128>, key: (i32, i32), w: i128)
    ensures
        weight_keys(*final(m)) == if weight_values(*old(m)).dom().contains(key) {
            weight_keys(*old(m))
        } else {
            weight_keys(*old(m)).push(key)
        },
        weight_values(*final(m)) == weight_values(*old(m)).insert(key, w),
{
    m.insert(key, w);
}

/// `IndexMap::get`: the weight stored under `key`, if there is one.
#[verifier::external_body]
pub(crate) fn weights_get<'a>(
    m: &'a IndexMap<(i32, i32), i128>,
    key: (i32, i32),
) -> (r: Option<&'a i128>)
    ensures
        r.is_some() == weight_values(*m).dom().contains(key),
        r.is_some() ==> *r.unwrap() == weight_values(*m)[key],
{
    m.get(&key)
}

/// `IndexMap::get_mut` on a key that is present: a mutable borrow of the
/// weight stored under `key`. The keys and the other weights stay as they
/// were.
#[verifier::external_body]
pub(crate) fn weights_get_mut<'a>(
    m: &'a mut IndexMap<(i32, i32), i128>,
    key: (i32, i32),
) -> (w: &'a mut i128)
    requires
        weight_values(*old(m)).dom().contains(key),
    ensures
        *w == weight_values(*old(m))[key],
        weight_keys(*final(m)) == weight_keys(*old(m)),
        weight_values(*final(m)) == weight_values(*old(m)).insert(key, *final(w)),
{
    m.get_mut(&key).unwrap()
}

/// `IndexMap::swap_remove`: the entry under a present key is removed by
/// moving the last entry into its place; an absent key leaves the map as it
/// was. The result tells whether an entry was removed.
#[verifier::external_body]
pub(crate) fn weights_swap_remove(
    m: &mut IndexMap<(i32, i32), i128>,
    key: (i32, i32),
) -> (removed: bool)
    ensures
        removed == weight_values(*old(m)).dom().contains(key),
        weight_keys(*final(m)) == if removed {
            swap_removed(weight_keys(*old(m)), weight_keys(*old(m)).index_of(key))
        } else {
            weight_keys(*old(m))
        },
        weight_values(*final(m)) == weight_values(*old(m)).remove(key),
{
    m.swap_remove(&key).is_some()
}

/// `IndexMap::get_index`: the endpoints of the key at position `i` of the
/// order and the weight stored under it, if `i` is below the number of
/// entries.
#[verifier::external_body]
pub(crate) fn weights_entry_at<'a>(
    m: &'a IndexMap<(i32, i32), i128>,
    i: usize,
) -> (r: Option<(&'a i32, &'a i32, &'a i128)>)
    ensures
        r.is_some() == (i < weight_keys(*m).len()),
        r.is_some() ==> (*r.unwrap().0, *r.unwrap().1) == weight_keys(*m)[i as int],
        r.is_some() ==> *r.unwrap().2 == weight_values(*m)[weight_keys(*m)[i as int]],
{
    m.get_index(i).map(|(k, w)| (&k.0, &k.1, w))
}

/// `IndexMap::keys`: the keys in their current order, copied out.
#[verifier::external_body]
pub(crate) fn weights_key_vec(m: &IndexMap<(i32, i32), i128>) -> (keys: Vec<(i32, i32)>)
    ensures
        keys@ == weight_keys(*m),
{
    m.keys().copied().collect()
}

/// `IndexMap::clone`: a map with the same entries in the same order.
#[verifier::external_body]
pub(crate) fn adjacency_clone(m: &IndexMap<i32, IndexSet<i32>>) -> (c: IndexMap<i32, IndexSet<i32>>)
    ensures
        adjacency_keys(c) == adjacency_keys(*m),
        adjacency_lists(c) == adjacency_lists(*m),
{
    m.clone()
}

/// `IndexMap::clone`: a map with the same entries in the same order.
#[verifier::external_body]
pub(crate) fn weights_clone(m: &IndexMap<(i32, i32), i128>) -> (c: IndexMap<(i32, i32), i128>)
    ensures
        weight_keys(c) == weight_keys(*m),
        weight_values(c) == weight_values(*m),
{
    m.clone()
}

} // verus!
