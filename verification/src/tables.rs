//! Hash tables with integer keys, from `rustc-hash`.

use rustc_hash::{FxBuildHasher, FxHashMap};
use std::collections::HashMap;
use vstd::prelude::*;

verus! {

/// The hasher of `rustc_hash::FxHashMap`.
#[verifier::external_type_specification]
#[verifier::external_body]
pub struct ExFxBuildHasher(FxBuildHasher);

/// A key: three integers.
pub type Key = (u64, u64, u64);

/// A table from keys to indices. Its type is that of `rustc_hash::FxHashMap`.
pub type Table = HashMap<Key, usize, FxBuildHasher>;

/// A partial assignment of truth values to variables. Its type is that of
/// `rustc_hash::FxHashMap`.
pub type Cube = HashMap<u32, bool, FxBuildHasher>;

/// `FxHashMap::default` of `rustc_hash`: an empty table.
#[verifier::external_body]
pub(crate) fn table_new() -> (r: Table)
    ensures
        (r@ == Map::<Key, usize>::empty()),
{
    FxHashMap::default()
}

/// `get` of `rustc_hash::FxHashMap`: the index stored under the key, if there is one.
#[verifier::external_body]
pub(crate) fn table_get(t: &Table, k: Key) -> (r: Option<usize>)
    ensures
        r == (if t@.contains_key(k) {
            Some(t@[k])
        } else {
            None
        }),
{
    t.get(&k).copied()
}

/// `insert` of `rustc_hash::FxHashMap`: stores the index under the key.
#[verifier::external_body]
pub(crate) fn table_insert(t: &mut Table, k: Key, v: usize)
    ensures
        final(t)@ == old(t)@.insert(k, v),
{
    t.insert(k, v);
}

/// `remove` of `rustc_hash::FxHashMap`: forgets the key.
#[verifier::external_body]
pub(crate) fn table_remove(t: &mut Table, k: Key)
    ensures
        final(t)@ == old(t)@.remove(k),
{
    t.remove(&k);
}

/// `FxHashMap::default` of `rustc_hash`: an empty assignment.
#[verifier::external_body]
pub(crate) fn cube_new() -> (r: Cube)
    ensures
        (r@ == Map::<u32, bool>::empty()),
{
    FxHashMap::default()
}

/// `get` of `rustc_hash::FxHashMap`: the variable's value, if it is assigned.
#[verifier::external_body]
pub(crate) fn cube_get(t: &Cube, v: u32) -> (r: Option<bool>)
    ensures
        r == (if t@.contains_key(v) {
            Some(t@[v])
        } else {
            None
        }),
{
    t.get(&v).copied()
}

/// `insert` of `rustc_hash::FxHashMap`: assigns the variable.
#[verifier::external_body]
pub(crate) fn cube_insert(t: &mut Cube, v: u32, b: bool)
    ensures
        final(t)@ == old(t)@.insert(v, b),
{
    t.insert(v, b);
}

} // verus!
