//! The cells of the spatial hash, kept in an `fnv::FnvHashMap`.
use vstd::prelude::*;
use fnv::FnvHashMap;

verus! {

/// Declares fnv's hasher, opaque, so that `FnvHashMap` may stand in
/// signatures.
#[verifier::external_type_specification]
#[verifier::external_body]
pub struct ExFnvHasher(fnv::FnvHasher);

/// Declares the builder of default-made hashers that `FnvHashMap` uses.
#[verifier::external_type_specification]
#[verifier::external_body]
#[verifier::reject_recursive_types(H)]
pub struct ExBuildHasherDefault<H>(core::hash::BuildHasherDefault<H>);

/// A grid cell, as (column, row).
pub type Cell = (i32, i32);

/// A registered body: (entity, generation).
pub type Occupant = (usize, i64);

/// The occupants of each non-empty cell.
pub type Buckets = FnvHashMap<Cell, Vec<Occupant>>;

/// Relies on `Default` for std's `HashMap` (here with fnv's hasher): the map
/// is empty.
#[verifier::external_body]
pub(crate) fn buckets_new() -> (r: Buckets)
    ensures
        r@ =~= Map::empty(),
{
    FnvHashMap::default()
}

/// Relies on std's `HashMap::remove`: takes out the value stored under
/// `cell`.  Which hasher the map uses does not change what it stores.
#[verifier::external_body]
pub(crate) fn buckets_take(m: &mut Buckets, cell: Cell) -> (r: Option<Vec<Occupant>>)
    ensures
        final(m)@ == old(m)@.remove(cell),
        match r {
            Some(v) => old(m)@.contains_key(cell) && v == old(m)@[cell],
            None => !old(m)@.contains_key(cell),
        },
{
    m.remove(&cell)
}

/// Relies on std's `HashMap::insert`: stores `v` under `cell`, replacing any
/// value there.
#[verifier::external_body]
pub(crate) fn buckets_put(m: &mut Buckets, cell: Cell, v: Vec<Occupant>)
    ensures
        final(m)@ == old(m)@.insert(cell, v),
{
    m.insert(cell, v);
}

} // verus!
