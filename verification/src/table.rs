//! The engine's hash table, as far as the library fills one.

use bevy::platform::collections::HashMap;
use vstd::prelude::*;

verus! {

/// `bevy::platform::collections::HashMap`, opaque.
#[verifier::external_type_specification]
#[verifier::external_body]
#[verifier::reject_recursive_types(K)]
#[verifier::reject_recursive_types(V)]
#[verifier::reject_recursive_types(S)]
pub struct ExHashMap<K, V, S>(bevy::platform::collections::HashMap<K, V, S>);

/// `bevy::platform::hash::FixedHasher`, opaque.
#[verifier::external_type_specification]
#[verifier::external_body]
pub struct ExFixedHasher(bevy::platform::hash::FixedHasher);

/// Which frame each shooter's last shot was fired on.
pub uninterp spec fn shots_in(table: HashMap<usize, i32>) -> Map<usize, i32>;

/// `HashMap::new` holds nothing.
#[verifier::external_body]
pub(crate) fn no_shots() -> (table: HashMap<usize, i32>)
    ensures
        (shots_in(table) == Map::<usize, i32>::empty()),
{
    HashMap::new()
}

/// `HashMap::insert` files the value under the key in place of what was there,
/// which it hands back.
#[verifier::external_body]
pub(crate) fn note_shot(table: &mut HashMap<usize, i32>, handle: usize, frame: i32) -> (was: Option<
    i32,
>)
    ensures
        shots_in(*final(table)) == shots_in(*old(table)).insert(handle, frame),
        was == (if shots_in(*old(table)).dom().contains(handle) {
            Some(shots_in(*old(table))[handle])
        } else {
            None
        }),
{
    table.insert(handle, frame)
}

} // verus!
