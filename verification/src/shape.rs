//! The shape contract: the compile-time rule binding each key type to
//! exactly one storage strategy.

use vstd::prelude::*;
use crate::hashed::HashbrownMapStorage;
use crate::key::Suit;
use crate::option_map::OptionMapStorage;
use crate::singleton::{SingletonMapStorage, UnitKey};
use crate::storage::MapStorage;

verus! {

/// Binds a key type to the one storage strategy that holds its values:
/// the shape of the key decides the representation, with no runtime
/// dispatch.
///
/// - A finite enumeration with payload-free variants binds to direct
///   storage, one slot per variant; its [`crate::key::EnumKey`]
///   implementation is the variant-to-index mapping the slots are
///   addressed by.
/// - The one-inhabitant key type [`UnitKey`] binds to singleton storage.
/// - The unbounded integer key type binds to hash storage.
/// - `Option<K>` of an already-bound `K` binds to the optional-key
///   composition over `K`'s own strategy.
///
/// A key type with no binding cannot form a container at all: the failure
/// is a missing implementation of this trait, reported when the container
/// is defined, never at runtime.
pub trait Key<V>: Sized + Copy {
    /// The storage strategy bound to this key type.
    type MapStorage: MapStorage<Self, V>;
}

impl<V> Key<V> for UnitKey {
    type MapStorage = SingletonMapStorage<V>;
}

impl<V> Key<V> for u64 {
    type MapStorage = HashbrownMapStorage<V>;
}

impl<V> Key<V> for Suit {
    type MapStorage = crate::direct::DirectMapStorage<Suit, V>;
}

impl<V, K: Key<V>> Key<V> for Option<K> {
    type MapStorage = OptionMapStorage<K, V, <K as Key<V>>::MapStorage>;
}

} // verus!
