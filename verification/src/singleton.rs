//! Storage for a key type with exactly one possible value.

use vstd::prelude::*;
use core::marker::PhantomData;
use crate::storage::{Entry, MapStorage};

verus! {

/// The key type with exactly one possible value, bound to
/// [`SingletonMapStorage`].
#[derive(Clone, Copy, Debug, PartialEq, Eq, Structural)]
pub struct UnitKey;

/// Map storage for a key type that can only inhabit a single value, such as
/// [`UnitKey`]: at most one value is ever stored, in one optional slot.
///
/// Every operation ignores the identity of the key argument, since only one
/// key exists; the canonical key reported by
/// iteration is the type's single value.
#[derive(Clone, Copy)]
pub struct SingletonMapStorage<V> {
    /// The sole optional slot.
    pub inner: Option<V>,
}

/// The vacant handle of [`SingletonMapStorage`]: the sole slot is empty, so
/// the handle needs to remember nothing.
pub struct VacantBucket<V> {
    /// Carries the value type; the handle itself holds no data.
    pub marker: PhantomData<V>,
}

/// The occupied handle of [`SingletonMapStorage`]: holds the sole stored
/// value.
pub struct OccupiedBucket<V> {
    /// The stored value.
    pub value: V,
}

/// The model of a singleton storage holding `value`: the one-pair map from
/// the unit key.
pub open spec fn unit_map<V>(value: V) -> Map<UnitKey, V> {
    Map::empty().insert(UnitKey, value)
}

/// The one-pair map from the unit key has exactly the unit key in its
/// domain.
pub proof fn lemma_unit_map<V>(value: V)
    ensures
        unit_map(value).dom().finite(),
        unit_map(value).dom().len() == 1,
        unit_map(value).dom() =~= Set::empty().insert(UnitKey),
        unit_map(value).dom().contains(UnitKey),
        unit_map(value)[UnitKey] == value,
        seq![UnitKey].to_set() =~= Set::empty().insert(UnitKey),
{
    assert(unit_map(value).dom() =~= Set::empty().insert(UnitKey));
    assert(Set::<UnitKey>::empty().insert(UnitKey).len() == 1);
    assert(seq![UnitKey].to_set() =~= Set::empty().insert(UnitKey)) by {
        assert(seq![UnitKey][0] == UnitKey);
        assert(seq![UnitKey].contains(UnitKey));
    }
}

impl<V> MapStorage<UnitKey, V> for SingletonMapStorage<V> {
    type Vacant = VacantBucket<V>;

    type Occupied = OccupiedBucket<V>;

    open spec fn inv(&self) -> bool {
        true
    }

    open spec fn contents(&self) -> Map<UnitKey, V> {
        match self.inner {
            Some(v) => unit_map(v),
            None => Map::empty(),
        }
    }

    open spec fn order(&self) -> Seq<UnitKey> {
        match self.inner {
            Some(_) => seq![UnitKey],
            None => Seq::empty(),
        }
    }

    open spec fn vacant_wf(va: VacantBucket<V>) -> bool {
        true
    }

    open spec fn vacant_key(va: VacantBucket<V>) -> UnitKey {
        UnitKey
    }

    open spec fn vacant_rest(va: VacantBucket<V>) -> Map<UnitKey, V> {
        Map::empty()
    }

    open spec fn occupied_wf(oc: OccupiedBucket<V>) -> bool {
        true
    }

    open spec fn occupied_key(oc: OccupiedBucket<V>) -> UnitKey {
        UnitKey
    }

    open spec fn occupied_contents(oc: OccupiedBucket<V>) -> Map<UnitKey, V> {
        unit_map(oc.value)
    }

    proof fn lemma_inv(&self) {
        match self.inner {
            Some(v) => {
                lemma_unit_map(v);
                assert(self.order().no_duplicates());
            },
            None => {
                assert(self.order().to_set() =~= self.contents().dom());
            },
        }
    }

    proof fn lemma_vacant_wf(va: VacantBucket<V>) {
    }

    proof fn lemma_occupied_wf(oc: OccupiedBucket<V>) {
        lemma_unit_map(oc.value);
    }

    fn empty() -> (s: Self)
        ensures
            s.inv(),
            s.contents() == Map::<UnitKey, V>::empty(),
            s.order() == Seq::<UnitKey>::empty(),
    {
        SingletonMapStorage { inner: None }
    }

    fn len(&self) -> (n: usize) {
        match &self.inner {
            Some(v) => {
                proof {
                    lemma_unit_map(*v);
                }
                1
            },
            None => 0,
        }
    }

    fn is_empty(&self) -> (e: bool) {
        proof {
            if self.inner is Some {
                lemma_unit_map(self.inner.unwrap());
            }
        }
        self.inner.is_none()
    }

    fn insert(&mut self, key: UnitKey, value: V) -> (prev: Option<V>) {
        let prev = self.inner.take();
        self.inner = Some(value);
        proof {
            if prev is Some {
                lemma_unit_map(prev.unwrap());
            }
            assert(self.contents() =~= old(self).contents().insert(UnitKey, value));
        }
        prev
    }

    fn contains_key(&self, key: UnitKey) -> (b: bool) {
        proof {
            if self.inner is Some {
                lemma_unit_map(self.inner.unwrap());
            }
        }
        self.inner.is_some()
    }

    fn get(&self, key: UnitKey) -> (r: Option<&V>) {
        proof {
            if self.inner is Some {
                lemma_unit_map(self.inner.unwrap());
            }
        }
        self.inner.as_ref()
    }

    fn get_mut(&mut self, key: UnitKey) -> (v: &mut V) {
        proof {
            lemma_unit_map(old(self).inner.unwrap());
        }
        let inner = self.inner.as_mut();
        match inner {
            Some(v) => {
                proof {
                    assert forall|w: V| true implies unit_map(w) == old(self).contents().insert(
                        UnitKey,
                        w,
                    ) by {
                        assert(unit_map(w) =~= old(self).contents().insert(UnitKey, w));
                    }
                }
                v
            },
            None => unreached(),
        }
    }

    fn remove(&mut self, key: UnitKey) -> (prev: Option<V>) {
        let prev = self.inner.take();
        proof {
            if prev is Some {
                lemma_unit_map(prev.unwrap());
            }
            assert(self.contents() =~= old(self).contents().remove(UnitKey));
        }
        prev
    }

    fn clear(&mut self) {
        self.inner = None;
    }

    fn retain<F: Fn(UnitKey, &V) -> bool>(&mut self, f: F) {
        let taken = self.inner.take();
        match taken {
            Some(v) => {
                proof {
                    lemma_unit_map(v);
                }
                if f(UnitKey, &v) {
                    self.inner = Some(v);
                }
            },
            None => {},
        }
    }

    fn iter(&self) -> (r: Vec<(UnitKey, &V)>) {
        let mut r: Vec<(UnitKey, &V)> = Vec::new();
        match &self.inner {
            Some(v) => {
                proof {
                    lemma_unit_map(*v);
                }
                r.push((UnitKey, v));
                proof {
                    assert(r@[0].0 == self.order()[0]);
                    assert(*r@[0].1 == self.contents()[self.order()[0]]);
                }
            },
            None => {},
        }
        r
    }

    fn into_iter(self) -> (r: Vec<(UnitKey, V)>) {
        let mut r: Vec<(UnitKey, V)> = Vec::new();
        match self.inner {
            Some(v) => {
                proof {
                    lemma_unit_map(v);
                }
                r.push((UnitKey, v));
                proof {
                    assert(r@[0].0 == self.order()[0]);
                    assert(r@[0].1 == self.contents()[self.order()[0]]);
                }
            },
            None => {},
        }
        r
    }

    fn entry(self, key: UnitKey) -> (e: Entry<VacantBucket<V>, OccupiedBucket<V>>) {
        match self.inner {
            Some(v) => {
                proof {
                    lemma_unit_map(v);
                }
                Entry::Occupied(OccupiedBucket { value: v })
            },
            None => Entry::Vacant(VacantBucket { marker: PhantomData }),
        }
    }

    fn vacant_entry_key(va: &VacantBucket<V>) -> (k: UnitKey) {
        UnitKey
    }

    fn vacant_insert(va: VacantBucket<V>, value: V) -> (s: Self) {
        proof {
            assert(unit_map(value) =~= Map::<UnitKey, V>::empty().insert(UnitKey, value));
        }
        SingletonMapStorage { inner: Some(value) }
    }

    fn vacant_into_storage(va: VacantBucket<V>) -> (s: Self) {
        SingletonMapStorage { inner: None }
    }

    fn occupied_entry_key(oc: &OccupiedBucket<V>) -> (k: UnitKey) {
        UnitKey
    }

    fn occupied_get(oc: &OccupiedBucket<V>) -> (v: &V) {
        proof {
            lemma_unit_map(oc.value);
        }
        &oc.value
    }

    fn occupied_get_mut(oc: &mut OccupiedBucket<V>) -> (v: &mut V) {
        proof {
            lemma_unit_map(old(oc).value);
            assert forall|w: V| true implies unit_map(w) == unit_map(old(oc).value).insert(
                UnitKey,
                w,
            ) by {
                assert(unit_map(w) =~= unit_map(old(oc).value).insert(UnitKey, w));
            }
        }
        &mut oc.value
    }

    fn occupied_insert(oc: &mut OccupiedBucket<V>, value: V) -> (prev: V) {
        proof {
            lemma_unit_map(old(oc).value);
            assert(unit_map(value) =~= unit_map(old(oc).value).insert(UnitKey, value));
        }
        let mut value = value;
        core::mem::swap(&mut oc.value, &mut value);
        value
    }

    fn occupied_remove(oc: OccupiedBucket<V>) -> (r: (V, Self)) {
        proof {
            lemma_unit_map(oc.value);
            assert(unit_map(oc.value).remove(UnitKey) =~= Map::<UnitKey, V>::empty());
        }
        let OccupiedBucket { value } = oc;
        (value, SingletonMapStorage { inner: None })
    }

    fn occupied_into_storage(oc: OccupiedBucket<V>) -> (s: Self) {
        let OccupiedBucket { value } = oc;
        SingletonMapStorage { inner: Some(value) }
    }
}

} // verus!
