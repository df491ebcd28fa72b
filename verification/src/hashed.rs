//! Storage for unbounded integer keys, backed by `hashbrown`'s hash table.

use vstd::prelude::*;
use crate::storage::{Entry, MapStorage};

verus! {

/// The raw `hashbrown` table. Opaque to verification: every access goes
/// through the trusted wrappers below, whose contracts state what the
/// table's own operations do.
#[verifier::external_body]
#[verifier::reject_recursive_types(V)]
pub struct Table<V> {
    map: hashbrown::HashMap<u64, V>,
}

/// Map storage for an unbounded integer key domain, backed by
/// [`hashbrown::HashMap`].
///
/// The table itself is outside the verifier; `model` holds the key/value
/// pairs it contains and `layout` the order its iterator currently walks
/// them in. The layout is duplicate-free and covers the model exactly, but
/// which order it is depends on the hasher's per-process seed: mutations may
/// rearrange it arbitrarily, and no contract promises more than that.
#[verifier::reject_recursive_types(V)]
pub struct HashbrownMapStorage<V> {
    /// The raw table.
    pub table: Table<V>,
    /// The key/value pairs the table holds.
    pub model: Ghost<Map<u64, V>>,
    /// The keys in the order the table's iterator currently yields them.
    pub layout: Ghost<Seq<u64>>,
}

/// The vacant handle of [`HashbrownMapStorage`]: remembers the storage and
/// the probed key, which the table does not contain.
#[verifier::reject_recursive_types(V)]
pub struct HashVacant<V> {
    /// The storage the handle was taken from.
    pub storage: HashbrownMapStorage<V>,
    /// The probed key.
    pub key: u64,
}

/// The occupied handle of [`HashbrownMapStorage`]: remembers the storage and
/// the probed key, which the table contains.
#[verifier::reject_recursive_types(V)]
pub struct HashOccupied<V> {
    /// The storage the handle was taken from.
    pub storage: HashbrownMapStorage<V>,
    /// The probed key.
    pub key: u64,
}

/// Relies on hashbrown::HashMap::new: the created table holds no entries,
/// which is what pairing it with an empty model and layout asserts.
#[verifier::external_body]
fn table_new<V>() -> (t: Table<V>) {
    Table { map: hashbrown::HashMap::new() }
}

/// Relies on hashbrown::HashMap::clear: afterwards the table holds no
/// entries, which is what resetting the model and layout to empty asserts.
#[verifier::external_body]
fn table_clear<V>(t: &mut Table<V>) {
    t.map.clear()
}

impl<V> HashbrownMapStorage<V> {
    /// A storage around a freshly created, empty table.
    fn raw_new() -> (s: Self)
        ensures
            s.inv(),
            s.model@ =~= Map::empty(),
            s.layout@ =~= Seq::empty(),
    {
        let s = HashbrownMapStorage {
            table: table_new(),
            model: Ghost(Map::empty()),
            layout: Ghost(Seq::empty()),
        };
        proof {
            assert(s.model@.dom() =~= Set::empty());
            assert(s.layout@.to_set() =~= Set::empty());
        }
        s
    }

    /// Relies on hashbrown::HashMap::len: the number of entries the table
    /// holds.
    #[verifier::external_body]
    fn raw_len(&self) -> (n: usize)
        ensures
            n == self.model@.dom().len(),
    {
        self.table.map.len()
    }

    /// Relies on hashbrown::HashMap::contains_key.
    #[verifier::external_body]
    fn raw_contains(&self, key: u64) -> (b: bool)
        ensures
            b == self.model@.dom().contains(key),
    {
        self.table.map.contains_key(&key)
    }

    /// Relies on hashbrown::HashMap::get: the value stored under the key, if
    /// any.
    #[verifier::external_body]
    fn raw_get(&self, key: u64) -> (r: Option<&V>)
        ensures
            (match r {
                Some(v) => self.model@.dom().contains(key) && *v == self.model@[key],
                None => !self.model@.dom().contains(key),
            }),
    {
        self.table.map.get(&key)
    }

    /// Relies on hashbrown::HashMap::get_mut: a mutable reference to the
    /// value stored under the key; reading or writing it neither adds nor
    /// removes entries nor rearranges the table.
    #[verifier::external_body]
    fn raw_get_mut(&mut self, key: u64) -> (v: &mut V)
        requires
            old(self).inv(),
            old(self).model@.dom().contains(key),
        ensures
            *v == old(self).model@[key],
            final(self).inv(),
            final(self).model@ == old(self).model@.insert(key, *final(v)),
            final(self).layout@ == old(self).layout@,
    {
        self.table.map.get_mut(&key).unwrap()
    }

    /// Relies on hashbrown::HashMap::insert: stores the value under the key
    /// and returns the previously stored value, if any. The table may grow
    /// and rearrange, so nothing is promised of the new layout beyond
    /// covering the new contents.
    #[verifier::external_body]
    fn raw_insert(&mut self, key: u64, value: V) -> (prev: Option<V>)
        ensures
            final(self).inv(),
            final(self).model@ == old(self).model@.insert(key, value),
            prev == (if old(self).model@.dom().contains(key) {
                Some(old(self).model@[key])
            } else {
                None::<V>
            }),
    {
        self.table.map.insert(key, value)
    }

    /// Relies on hashbrown::HashMap::remove: takes the value stored under
    /// the key out, if any.
    #[verifier::external_body]
    fn raw_remove(&mut self, key: u64) -> (prev: Option<V>)
        ensures
            final(self).inv(),
            final(self).model@ == old(self).model@.remove(key),
            prev == (if old(self).model@.dom().contains(key) {
                Some(old(self).model@[key])
            } else {
                None::<V>
            }),
    {
        self.table.map.remove(&key)
    }

    /// Empty the table and reset the model beside it.
    fn raw_clear(&mut self)
        ensures
            final(self).inv(),
            final(self).model@ =~= Map::empty(),
            final(self).layout@ =~= Seq::empty(),
    {
        table_clear(&mut self.table);
        self.model = Ghost(Map::empty());
        self.layout = Ghost(Seq::empty());
        proof {
            assert(self.model@.dom() =~= Set::empty());
            assert(self.layout@.to_set() =~= Set::empty());
        }
    }

    /// Relies on hashbrown::HashMap::retain: calls the predicate once on
    /// each entry and keeps exactly the entries it approves.
    #[verifier::external_body]
    fn raw_retain<F: Fn(u64, &V) -> bool>(&mut self, f: F)
        requires
            forall|k: u64, v: &V| call_requires(f, (k, v)),
        ensures
            final(self).inv(),
            forall|k: u64| #[trigger]
                final(self).model@.dom().contains(k) ==> old(self).model@.dom().contains(k)
                    && final(self).model@[k] == old(self).model@[k],
            forall|k: u64| #[trigger]
                old(self).model@.dom().contains(k) ==> call_ensures(
                    f,
                    (k, &old(self).model@[k]),
                    final(self).model@.dom().contains(k),
                ),
    {
        self.table.map.retain(|k, v| f(*k, v))
    }

    /// Relies on hashbrown::HashMap::iter: yields each entry exactly once,
    /// in the table's current layout order.
    #[verifier::external_body]
    fn raw_iter(&self) -> (r: Vec<(u64, &V)>)
        requires
            self.inv(),
        ensures
            r@.len() == self.layout@.len(),
            forall|i: int|
                0 <= i < r@.len() ==> (#[trigger] r@[i]).0 == self.layout@[i] && *r@[i].1
                    == self.model@[self.layout@[i]],
    {
        self.table.map.iter().map(|(k, v)| (*k, v)).collect()
    }

    /// Relies on hashbrown::HashMap::into_iter: yields each entry exactly
    /// once, in the table's current layout order.
    #[verifier::external_body]
    fn raw_into_vec(self) -> (r: Vec<(u64, V)>)
        requires
            self.inv(),
        ensures
            r@.len() == self.layout@.len(),
            forall|i: int|
                0 <= i < r@.len() ==> (#[trigger] r@[i]).0 == self.layout@[i] && r@[i].1
                    == self.model@[self.layout@[i]],
    {
        self.table.map.into_iter().collect()
    }
}

impl<V> MapStorage<u64, V> for HashbrownMapStorage<V> {
    type Vacant = HashVacant<V>;

    type Occupied = HashOccupied<V>;

    open spec fn inv(&self) -> bool {
        &&& self.model@.dom().finite()
        &&& self.model@.dom().len() <= usize::MAX
        &&& self.layout@.no_duplicates()
        &&& self.layout@.to_set() == self.model@.dom()
        &&& self.layout@.len() == self.model@.dom().len()
    }

    open spec fn contents(&self) -> Map<u64, V> {
        self.model@
    }

    open spec fn order(&self) -> Seq<u64> {
        self.layout@
    }

    open spec fn vacant_wf(va: HashVacant<V>) -> bool {
        va.storage.inv() && !va.storage.model@.dom().contains(va.key)
    }

    open spec fn vacant_key(va: HashVacant<V>) -> u64 {
        va.key
    }

    open spec fn vacant_rest(va: HashVacant<V>) -> Map<u64, V> {
        va.storage.model@
    }

    open spec fn occupied_wf(oc: HashOccupied<V>) -> bool {
        oc.storage.inv() && oc.storage.model@.dom().contains(oc.key)
    }

    open spec fn occupied_key(oc: HashOccupied<V>) -> u64 {
        oc.key
    }

    open spec fn occupied_contents(oc: HashOccupied<V>) -> Map<u64, V> {
        oc.storage.model@
    }

    proof fn lemma_inv(&self) {
    }

    proof fn lemma_vacant_wf(va: HashVacant<V>) {
    }

    proof fn lemma_occupied_wf(oc: HashOccupied<V>) {
    }

    fn empty() -> (s: Self) {
        Self::raw_new()
    }

    fn len(&self) -> (n: usize) {
        self.raw_len()
    }

    fn is_empty(&self) -> (e: bool) {
        self.raw_len() == 0
    }

    fn insert(&mut self, key: u64, value: V) -> (prev: Option<V>) {
        self.raw_insert(key, value)
    }

    fn contains_key(&self, key: u64) -> (b: bool) {
        self.raw_contains(key)
    }

    fn get(&self, key: u64) -> (r: Option<&V>) {
        self.raw_get(key)
    }

    fn get_mut(&mut self, key: u64) -> (v: &mut V) {
        self.raw_get_mut(key)
    }

    fn remove(&mut self, key: u64) -> (prev: Option<V>) {
        self.raw_remove(key)
    }

    fn clear(&mut self) {
        self.raw_clear()
    }

    fn retain<F: Fn(u64, &V) -> bool>(&mut self, f: F) {
        self.raw_retain(f)
    }

    fn iter(&self) -> (r: Vec<(u64, &V)>) {
        let r = self.raw_iter();
        proof {
            assert forall|i: int| 0 <= i < r@.len() implies (#[trigger] r@[i]).0
                == self.order()[i] && *r@[i].1 == self.contents()[self.order()[i]] by {
                assert(r@[i].0 == self.layout@[i] && *r@[i].1 == self.model@[self.layout@[i]]);
            }
        }
        r
    }

    fn into_iter(self) -> (r: Vec<(u64, V)>) {
        let ghost orig = self;
        let r = self.raw_into_vec();
        proof {
            assert forall|i: int| 0 <= i < r@.len() implies (#[trigger] r@[i]).0
                == orig.order()[i] && r@[i].1 == orig.contents()[orig.order()[i]] by {
                assert(r@[i].0 == orig.layout@[i] && r@[i].1 == orig.model@[orig.layout@[i]]);
            }
        }
        r
    }

    fn entry(self, key: u64) -> (e: Entry<HashVacant<V>, HashOccupied<V>>) {
        if self.raw_contains(key) {
            Entry::Occupied(HashOccupied { storage: self, key })
        } else {
            Entry::Vacant(HashVacant { storage: self, key })
        }
    }

    fn vacant_entry_key(va: &HashVacant<V>) -> (k: u64) {
        va.key
    }

    fn vacant_insert(va: HashVacant<V>, value: V) -> (s: Self) {
        let HashVacant { storage, key } = va;
        let mut storage = storage;
        storage.raw_insert(key, value);
        storage
    }

    fn vacant_into_storage(va: HashVacant<V>) -> (s: Self) {
        let HashVacant { storage, key: _ } = va;
        storage
    }

    fn occupied_entry_key(oc: &HashOccupied<V>) -> (k: u64) {
        oc.key
    }

    fn occupied_get(oc: &HashOccupied<V>) -> (v: &V) {
        match oc.storage.raw_get(oc.key) {
            Some(v) => v,
            None => unreached(),
        }
    }

    fn occupied_get_mut(oc: &mut HashOccupied<V>) -> (v: &mut V) {
        let key = oc.key;
        oc.storage.raw_get_mut(key)
    }

    fn occupied_insert(oc: &mut HashOccupied<V>, value: V) -> (prev: V) {
        let key = oc.key;
        let slot = oc.storage.raw_get_mut(key);
        let mut value = value;
        core::mem::swap(slot, &mut value);
        value
    }

    fn occupied_remove(oc: HashOccupied<V>) -> (r: (V, Self)) {
        let HashOccupied { storage, key } = oc;
        let mut storage = storage;
        let prev = storage.raw_remove(key);
        match prev {
            Some(v) => (v, storage),
            None => unreached(),
        }
    }

    fn occupied_into_storage(oc: HashOccupied<V>) -> (s: Self) {
        let HashOccupied { storage, key: _ } = oc;
        storage
    }
}

} // verus!
