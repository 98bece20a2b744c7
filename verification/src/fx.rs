//! The hash maps and hash sets of `rustc_hash`, keyed by vertex ids. Each function
//! here makes one call into such a collection; its contract is taken on trust and
//! says over the collection's view what the call does.

use vstd::prelude::*;
use rustc_hash::{FxBuildHasher, FxHashMap, FxHashSet};

verus! {

/// The hasher builder of `rustc_hash`, which holds no state.
#[verifier::external_type_specification]
#[verifier::external_body]
pub struct ExFxBuildHasher(FxBuildHasher);

/// `FxHashMap::default`: a map without entries.
#[verifier::external_body]
pub(crate) fn map_new<V>() -> (m: FxHashMap<usize, V>)
    ensures
        m@.dom() == Set::<usize>::empty(),
{
    FxHashMap::default()
}

/// `FxHashMap::with_capacity_and_hasher`: a map without entries, with room for some.
#[verifier::external_body]
pub(crate) fn map_with_capacity<V>(capacity: usize) -> (m: FxHashMap<usize, V>)
    ensures
        m@.dom() == Set::<usize>::empty(),
{
    FxHashMap::with_capacity_and_hasher(capacity, FxBuildHasher)
}

/// `HashMap::insert` on an `FxHashMap`: the key maps to the new value afterwards;
/// the value that it mapped to before comes back.
#[verifier::external_body]
pub(crate) fn map_insert<V>(m: &mut FxHashMap<usize, V>, key: usize, value: V) -> (before: Option<V>)
    ensures
        final(m)@ == old(m)@.insert(key, value),
        before == (if old(m)@.contains_key(key) {
            Some(old(m)@[key])
        } else {
            None
        }),
{
    m.insert(key, value)
}

/// `HashMap::get` on an `FxHashMap`: the value of the key, if it has one.
#[verifier::external_body]
pub(crate) fn map_get<'a, V>(m: &'a FxHashMap<usize, V>, key: usize) -> (value: Option<&'a V>)
    ensures
        value is Some <==> m@.contains_key(key),
        value is Some ==> *value->Some_0 == m@[key],
{
    m.get(&key)
}

/// `HashMap::get_mut` on an `FxHashMap`: the value of the key, if it has one, to be
/// changed in place; the other entries stay as they are, and without the key the
/// map is untouched.
#[verifier::external_body]
pub(crate) fn map_get_mut<'a, V>(m: &'a mut FxHashMap<usize, V>, key: usize) -> (value: Option<
    &'a mut V,
>)
    ensures
        value is Some <==> old(m)@.contains_key(key),
        match value {
            Some(v) => *v == old(m)@[key] && final(m)@ == old(m)@.insert(key, *final(v)),
            None => *final(m) == *old(m),
        },
{
    m.get_mut(&key)
}

/// `HashMap::contains_key` on an `FxHashMap`.
#[verifier::external_body]
pub(crate) fn map_contains_key<V>(m: &FxHashMap<usize, V>, key: usize) -> (found: bool)
    ensures
        found == m@.contains_key(key),
{
    m.contains_key(&key)
}

/// `HashMap::len` on an `FxHashMap`: the number of keys.
#[verifier::external_body]
pub(crate) fn map_len<V>(m: &FxHashMap<usize, V>) -> (n: usize)
    ensures
        n == m@.dom().len(),
{
    m.len()
}

/// `HashMap::iter` on an `FxHashMap`, collected: every entry once, in an order
/// that is not stated.
#[verifier::external_body]
pub(crate) fn map_entries<'a, V>(m: &'a FxHashMap<usize, V>) -> (entries: Vec<(usize, &'a V)>)
    ensures
        forall|i: int|
            0 <= i < entries.len() ==> m@.contains_key((#[trigger] entries[i]).0) && *entries[i].1
                == m@[entries[i].0],
        forall|i: int, j: int|
            0 <= i < j < entries.len() ==> (#[trigger] entries[i]).0 != (#[trigger] entries[j]).0,
        forall|key: usize|
            m@.contains_key(key) ==> exists|i: int|
                0 <= i < entries.len() && (#[trigger] entries[i]).0 == key,
{
    m.iter().map(|(key, value)| (*key, value)).collect()
}

/// `FxHashSet::default`: a set without members.
#[verifier::external_body]
pub(crate) fn set_new() -> (s: FxHashSet<usize>)
    ensures
        s@ == Set::<usize>::empty(),
{
    FxHashSet::default()
}

/// `HashSet::insert` on an `FxHashSet`: the value is a member afterwards; the
/// result says whether it was none before.
#[verifier::external_body]
pub(crate) fn set_insert(s: &mut FxHashSet<usize>, value: usize) -> (fresh: bool)
    ensures
        final(s)@ == old(s)@.insert(value),
        fresh == !old(s)@.contains(value),
{
    s.insert(value)
}

/// `HashSet::remove` on an `FxHashSet`: the value is no member afterwards; the
/// result says whether it was one before.
#[verifier::external_body]
pub(crate) fn set_remove(s: &mut FxHashSet<usize>, value: usize) -> (found: bool)
    ensures
        final(s)@ == old(s)@.remove(value),
        found == old(s)@.contains(value),
{
    s.remove(&value)
}

/// `HashSet::contains` on an `FxHashSet`.
#[verifier::external_body]
pub(crate) fn set_contains(s: &FxHashSet<usize>, value: usize) -> (found: bool)
    ensures
        found == s@.contains(value),
{
    s.contains(&value)
}

/// `HashSet::len` on an `FxHashSet`: the number of members.
#[verifier::external_body]
pub(crate) fn set_len(s: &FxHashSet<usize>) -> (n: usize)
    ensures
        n == s@.len(),
{
    s.len()
}

} // verus!
