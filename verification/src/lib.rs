//! Fixed-domain associative storage.
//!
//! Maps whose key type is drawn from a statically known, finite domain can
//! store their values without hashing: one slot per possible key. This crate
//! provides the shared storage contract ([`storage::MapStorage`],
//! [`sets::SetStorage`]), four storage strategies that satisfy it, and the
//! uniform vacant/occupied entry handles used for controlled mutation:
//!
//! - [`direct::DirectMapStorage`]: one optional slot per variant of a finite
//!   enumeration, indexed by the variant's declared position.
//! - [`hashed::HashbrownMapStorage`]: a hash-table-backed strategy for
//!   unbounded integer key domains.
//! - [`singleton::SingletonMapStorage`]: at most one value, for a key type
//!   with exactly one inhabitant.
//! - [`option_map::OptionMapStorage`]: lifts a strategy for `K` into a
//!   strategy for `Option<K>` by adding one absent-branch slot.

pub mod key;
pub mod shape;
pub mod storage;
pub mod singleton;
pub mod direct;
pub mod hashed;
pub mod option_map;
pub mod sets;
pub mod option_set;
pub mod laws;
