//! The few contracts Verus takes on trust, each backed by one function of
//! an outside crate or of std, named in its doc comment.
//!
//! The jump table is an `FxHashMap` keyed by instruction positions.
//! `FxHasher` (rustc_hash) is a plain polynomial hash with a fixed seed: it
//! is deterministic, equal keys hash equally in every process, and `usize`
//! keys compare by value, so the table behaves as the mathematical map
//! model that these contracts state.

use vstd::prelude::*;

use rustc_hash::FxHashMap;

verus! {

/// The build hasher behind `rustc_hash::FxHashMap`: a unit struct whose
/// hashers start from seed zero.
#[verifier::external_type_specification]
#[verifier::external_body]
pub struct ExFxBuildHasher(rustc_hash::FxBuildHasher);

/// Relies on `FxHashMap::default` (std's `HashMap::default`): a freshly
/// built map holds nothing.
#[verifier::external_body]
pub(crate) fn new_jump_map() -> (m: FxHashMap<usize, usize>)
    ensures
        forall|k: usize| !m@.contains_key(k),
{
    FxHashMap::default()
}

/// Relies on std's `HashMap::insert` under rustc_hash's deterministic
/// `FxBuildHasher`: inserting binds the key to the value and touches no
/// other binding.
#[verifier::external_body]
pub(crate) fn jump_insert(m: &mut FxHashMap<usize, usize>, key: usize, value: usize)
    ensures
        final(m)@ == old(m)@.insert(key, value),
{
    m.insert(key, value);
}

/// Relies on std's `HashMap::get` under rustc_hash's deterministic
/// `FxBuildHasher`: lookup returns exactly the binding the map holds.
#[verifier::external_body]
pub(crate) fn jump_get(m: &FxHashMap<usize, usize>, key: usize) -> (r: Option<usize>)
    ensures
        match r {
            Option::Some(v) => m@.contains_key(key) && m@[key] == v,
            Option::None => !m@.contains_key(key),
        },
{
    m.get(&key).copied()
}

/// Relies on std's `String::push`: it appends exactly the one character.
pub assume_specification[ String::push ](s: &mut String, c: char)
    ensures
        final(s)@ == old(s)@.push(c),
;

} // verus!
