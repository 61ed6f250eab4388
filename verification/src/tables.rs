//! Hash tables keyed by grid cells.
//!
//! The tables are the standard library's `HashMap` and `HashSet` with the
//! FNV hasher of the `fnv` crate. Their contents are described by the views
//! that `vstd` gives the two collections; the functions below state, without
//! proof, what each operation does to that view.

use fnv::{FnvHashMap, FnvHashSet};
use vstd::prelude::*;

verus! {

/// The hasher state of `fnv::FnvHasher`, carried through as an opaque value.
#[verifier::external_type_specification]
#[verifier::external_body]
pub struct ExFnvHasher(fnv::FnvHasher);

/// `std::hash::BuildHasherDefault`, which makes a fresh default hasher for
/// every key.
#[verifier::external_type_specification]
#[verifier::external_body]
#[verifier::reject_recursive_types(H)]
pub struct ExBuildHasherDefault<H>(std::hash::BuildHasherDefault<H>);

/// `FnvHashSet::default`: a set without elements.
#[verifier::external_body]
pub(crate) fn cell_set_new() -> (set: FnvHashSet<(i32, i32)>)
    ensures
        set@ == Set::<(i32, i32)>::empty(),
{
    FnvHashSet::default()
}

/// `HashSet::insert` on a set of cells: afterwards the set holds `(x, y)`
/// besides what it held.
#[verifier::external_body]
pub(crate) fn cell_set_insert(set: &mut FnvHashSet<(i32, i32)>, x: i32, y: i32)
    ensures
        final(set)@ == old(set)@.insert((x, y)),
{
    set.insert((x, y));
}

/// `HashSet::contains` on a set of cells: whether the set holds `(x, y)`.
#[verifier::external_body]
pub(crate) fn cell_set_contains(set: &FnvHashSet<(i32, i32)>, x: i32, y: i32) -> (found: bool)
    ensures
        found == set@.contains((x, y)),
{
    set.contains(&(x, y))
}

/// `FnvHashMap::default`: a map without entries.
#[verifier::external_body]
pub(crate) fn cell_map_new() -> (table: FnvHashMap<(i32, i32), u32>)
    ensures
        (table@ == Map::<(i32, i32), u32>::empty()),
{
    FnvHashMap::default()
}

/// `HashMap::insert` on a map from cells: afterwards `(x, y)` maps to
/// `amount` and every other key is as before.
#[verifier::external_body]
pub(crate) fn cell_map_insert(table: &mut FnvHashMap<(i32, i32), u32>, x: i32, y: i32, amount: u32)
    ensures
        final(table)@ == old(table)@.insert((x, y), amount),
{
    table.insert((x, y), amount);
}

/// `HashMap::remove` on a map from cells: afterwards `(x, y)` is no key and
/// every other key is as before.
#[verifier::external_body]
pub(crate) fn cell_map_remove(table: &mut FnvHashMap<(i32, i32), u32>, x: i32, y: i32)
    ensures
        final(table)@ == old(table)@.remove((x, y)),
{
    table.remove(&(x, y));
}

/// `HashMap::get` on a map from cells: the value stored for `(x, y)`, if
/// any.
#[verifier::external_body]
pub(crate) fn cell_map_get(table: &FnvHashMap<(i32, i32), u32>, x: i32, y: i32) -> (found: Option<u32>)
    ensures
        found == if table@.contains_key((x, y)) {
            Some(table@[(x, y)])
        } else {
            None
        },
{
    table.get(&(x, y)).copied()
}

} // verus!
