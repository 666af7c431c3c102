//! The outside collections that the runtime keeps its data in, with the
//! contracts that the library relies on.
//!
//! Every item in this module is trusted: its contract is taken from the
//! source of the outside crate, not proved.
use std::hash::BuildHasherDefault;

use arrayvec::ArrayVec;
use rustc_hash::FxHasher;
use vstd::prelude::*;

use crate::value::Value;

verus! {

#[verifier::external_type_specification]
#[verifier::external_body]
#[verifier::reject_recursive_types(T)]
pub struct ExArrayVec<T, const CAP: usize>(ArrayVec<T, CAP>);

/// A hash map from heap indices to values, hashed with `FxHasher`.
#[verifier::external_body]
pub struct ValueTable {
    map: hashbrown::HashMap<usize, Value, BuildHasherDefault<FxHasher>>,
}

pub open spec fn empty_value_map() -> Map<usize, Value> {
    Map::empty()
}

/// What a [`ValueTable`] holds.
pub uninterp spec fn value_table_contents(t: ValueTable) -> Map<usize, Value>;

impl ValueTable {
    /// `hashbrown::HashMap::default`: an empty map.
    #[verifier::external_body]
    pub fn new() -> (table: ValueTable)
        ensures
            value_table_contents(table) == empty_value_map(),
    {
        ValueTable { map: hashbrown::HashMap::default() }
    }
}

impl ValueTable {
    /// `hashbrown::HashMap::get`: the value under `key`, if any.
    #[verifier::external_body]
    pub fn get(&self, key: usize) -> (r: Option<Value>)
        ensures
            r == (if value_table_contents(*self).contains_key(key) {
                Some(value_table_contents(*self)[key])
            } else {
                None
            }),
    {
        self.map.get(&key).copied()
    }

    /// `hashbrown::HashMap::insert`: `key` now maps to `value`.
    #[verifier::external_body]
    pub fn insert(&mut self, key: usize, value: Value)
        ensures
            value_table_contents(*final(self)) == value_table_contents(*old(self)).insert(
                key,
                value,
            ),
    {
        self.map.insert(key, value);
    }

    /// `hashbrown::HashMap::clone`: a map with the same entries.
    #[verifier::external_body]
    pub fn copy(&self) -> (r: ValueTable)
        ensures
            value_table_contents(r) == value_table_contents(*self),
    {
        ValueTable { map: self.map.clone() }
    }

    /// `hashbrown::HashMap::iter`: every entry once, in an order that the map
    /// does not promise.
    #[verifier::external_body]
    pub fn entries(&self) -> (r: Vec<(usize, Value)>)
        ensures
            forall|i: int|
                0 <= i < r@.len() ==> value_table_contents(*self).contains_key(r@[i].0)
                    && value_table_contents(*self)[r@[i].0] == r@[i].1,
            forall|k: usize|
                value_table_contents(*self).contains_key(k) ==> exists|i: int|
                    0 <= i < r@.len() && r@[i].0 == k,
    {
        self.map.iter().map(|(k, v)| (*k, *v)).collect()
    }
}

/// A hash map from string contents to heap indices, hashed with `FxHasher`.
#[verifier::external_body]
pub struct StringTable {
    map: hashbrown::HashMap<String, usize, BuildHasherDefault<FxHasher>>,
}

pub open spec fn empty_string_map() -> Map<Seq<char>, usize> {
    Map::empty()
}

/// What a [`StringTable`] holds: the characters of each key.
pub uninterp spec fn string_table_contents(t: StringTable) -> Map<Seq<char>, usize>;

impl StringTable {
    /// `hashbrown::HashMap::default`: an empty map.
    #[verifier::external_body]
    pub fn new() -> (table: StringTable)
        ensures
            string_table_contents(table) == empty_string_map(),
    {
        StringTable { map: hashbrown::HashMap::default() }
    }

    /// `hashbrown::HashMap::get`, looked up by the characters of `key`.
    #[verifier::external_body]
    pub fn get(&self, key: &str) -> (r: Option<usize>)
        ensures
            r == (if string_table_contents(*self).contains_key(key@) {
                Some(string_table_contents(*self)[key@])
            } else {
                None
            }),
    {
        self.map.get(key).copied()
    }

    /// `hashbrown::HashMap::insert`: the characters of `key` now map to
    /// `value`.
    #[verifier::external_body]
    pub fn insert(&mut self, key: String, value: usize)
        ensures
            string_table_contents(*final(self)) == string_table_contents(*old(self)).insert(
                key@,
                value,
            ),
    {
        self.map.insert(key, value);
    }

    /// `hashbrown::HashMap::remove`: the characters of `key` no longer map to
    /// anything.
    #[verifier::external_body]
    pub fn remove(&mut self, key: &str)
        ensures
            string_table_contents(*final(self)) == string_table_contents(*old(self)).remove(key@),
    {
        self.map.remove(key);
    }
}

/// What a constant pool (an `ArrayVec` of at most 256 values) holds, in order.
pub uninterp spec fn constant_pool(pool: ArrayVec<Value, 256>) -> Seq<Value>;

/// `ArrayVec::new`: a vector with no element.
#[verifier::external_body]
pub fn constant_pool_new() -> (pool: ArrayVec<Value, 256>)
    ensures
        constant_pool(pool).len() == 0,
{
    ArrayVec::new()
}

/// `ArrayVec::push`: appends `value`; it panics only when the vector is full,
/// which `requires` rules out.
#[verifier::external_body]
pub fn constant_pool_push(pool: &mut ArrayVec<Value, 256>, value: Value)
    requires
        constant_pool(*old(pool)).len() < 256,
    ensures
        constant_pool(*final(pool)) == constant_pool(*old(pool)).push(value),
{
    pool.push(value)
}

/// `ArrayVec::as_slice`: the elements in order.
#[verifier::external_body]
pub fn constant_pool_slice(pool: &ArrayVec<Value, 256>) -> (s: &[Value])
    ensures
        s@ == constant_pool(*pool),
        s@.len() <= 256,
{
    pool.as_slice()
}

} // verus!
