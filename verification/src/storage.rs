//! The capability contract shared by every map storage strategy, and the
//! uniform vacant/occupied entry handles.

use vstd::prelude::*;

verus! {

/// The result of probing a storage strategy for one key: exactly one of a
/// vacant handle (no value present) or an occupied handle (a value present).
///
/// A handle owns the strategy it was taken from; its terminal operation
/// (`insert`, `remove`, `into_storage`) consumes the handle and returns the
/// strategy, so a handle can be used at most once.
pub enum Entry<Va, Oc> {
    Vacant(Va),
    Occupied(Oc),
}

/// The capability contract every map storage strategy satisfies.
///
/// A strategy owns zero or more key/value pairs; `contents()` is its
/// mathematical model, a finite map in which each key holds at most one
/// value. `order()` lists the keys in the strategy's iteration order; which
/// order that is belongs to each strategy, but it always covers the contents
/// exactly once.
///
/// Probing one key with `entry` yields a handle, [`Entry`], on which the
/// `vacant_*` and `occupied_*` operations act; each strategy's handle types
/// are its `Vacant` and `Occupied` associated types.
pub trait MapStorage<K: Copy, V>: Sized {
    /// This strategy's vacant entry handle.
    type Vacant;

    /// This strategy's occupied entry handle.
    type Occupied;

    /// The strategy's internal well-formedness condition. Constructors
    /// establish it and every operation preserves it.
    spec fn inv(&self) -> bool;

    /// The key/value pairs currently stored.
    spec fn contents(&self) -> Map<K, V>;

    /// The keys currently stored, in iteration order.
    spec fn order(&self) -> Seq<K>;

    /// A vacant handle is well formed: it was produced by `entry` on a valid
    /// strategy whose contents did not contain the probed key.
    spec fn vacant_wf(va: Self::Vacant) -> bool;

    /// The key a vacant handle is bound to.
    spec fn vacant_key(va: Self::Vacant) -> K;

    /// The contents of the strategy a vacant handle was taken from; the bound
    /// key is absent from them.
    spec fn vacant_rest(va: Self::Vacant) -> Map<K, V>;

    /// An occupied handle is well formed: it was produced by `entry` on a
    /// valid strategy whose contents contained the probed key.
    spec fn occupied_wf(oc: Self::Occupied) -> bool;

    /// The key an occupied handle is bound to.
    spec fn occupied_key(oc: Self::Occupied) -> K;

    /// The contents of the strategy an occupied handle was taken from; the
    /// bound key is present in them.
    spec fn occupied_contents(oc: Self::Occupied) -> Map<K, V>;

    /// A valid strategy's contents are finite and sized for the machine, and
    /// its iteration order covers each stored key exactly once.
    proof fn lemma_inv(&self)
        requires
            self.inv(),
        ensures
            self.contents().dom().finite(),
            self.contents().dom().len() <= usize::MAX,
            self.order().no_duplicates(),
            self.order().to_set() == self.contents().dom(),
            self.order().len() == self.contents().dom().len(),
    ;

    /// A well-formed vacant handle's key is absent from the contents it
    /// holds, which are finite and sized for the machine.
    proof fn lemma_vacant_wf(va: Self::Vacant)
        requires
            Self::vacant_wf(va),
        ensures
            !Self::vacant_rest(va).dom().contains(Self::vacant_key(va)),
            Self::vacant_rest(va).dom().finite(),
            Self::vacant_rest(va).dom().len() <= usize::MAX,
    ;

    /// A well-formed occupied handle's key is present in the contents it
    /// holds, which are finite and sized for the machine.
    proof fn lemma_occupied_wf(oc: Self::Occupied)
        requires
            Self::occupied_wf(oc),
        ensures
            Self::occupied_contents(oc).dom().contains(Self::occupied_key(oc)),
            Self::occupied_contents(oc).dom().finite(),
            Self::occupied_contents(oc).dom().len() <= usize::MAX,
    ;

    /// A strategy holding nothing.
    fn empty() -> (s: Self)
        ensures
            s.inv(),
            s.contents() == Map::<K, V>::empty(),
            s.order() == Seq::<K>::empty(),
    ;

    /// The count of keys currently holding a value.
    fn len(&self) -> (n: usize)
        requires
            self.inv(),
        ensures
            n == self.contents().dom().len(),
    ;

    /// Whether no key holds a value; equivalent to `len() == 0`.
    fn is_empty(&self) -> (e: bool)
        requires
            self.inv(),
        ensures
            e <==> self.contents().dom().len() == 0,
    ;

    /// Store `value` under `key`, returning the previously stored value, if
    /// any.
    fn insert(&mut self, key: K, value: V) -> (prev: Option<V>)
        requires
            old(self).inv(),
            old(self).contents().dom().len() < usize::MAX,
        ensures
            final(self).inv(),
            final(self).contents() == old(self).contents().insert(key, value),
            prev == (if old(self).contents().dom().contains(key) {
                Some(old(self).contents()[key])
            } else {
                None::<V>
            }),
    ;

    /// Whether `key` currently holds a value.
    fn contains_key(&self, key: K) -> (b: bool)
        requires
            self.inv(),
        ensures
            b == self.contents().dom().contains(key),
    ;

    /// A reference to the value under `key`, or `None` if the key holds no
    /// value.
    fn get(&self, key: K) -> (r: Option<&V>)
        requires
            self.inv(),
        ensures
            (match r {
                Some(v) => self.contents().dom().contains(key) && *v == self.contents()[key],
                None => !self.contents().dom().contains(key),
            }),
    ;

    /// A mutable reference to the value under `key`; writes through it update
    /// that value and leave every other pair and the iteration order alone.
    fn get_mut(&mut self, key: K) -> (v: &mut V)
        requires
            old(self).inv(),
            old(self).contents().dom().contains(key),
        ensures
            *v == old(self).contents()[key],
            final(self).inv(),
            final(self).contents() == old(self).contents().insert(key, *final(v)),
            final(self).order() == old(self).order(),
    ;

    /// Remove the value under `key`, returning it if the key held one.
    fn remove(&mut self, key: K) -> (prev: Option<V>)
        requires
            old(self).inv(),
        ensures
            final(self).inv(),
            final(self).contents() == old(self).contents().remove(key),
            prev == (if old(self).contents().dom().contains(key) {
                Some(old(self).contents()[key])
            } else {
                None::<V>
            }),
    ;

    /// Remove every stored pair.
    fn clear(&mut self)
        requires
            old(self).inv(),
        ensures
            final(self).inv(),
            final(self).contents() == Map::<K, V>::empty(),
            final(self).order() == Seq::<K>::empty(),
    ;

    /// Keep exactly the pairs the predicate approves. Every surviving pair
    /// was already stored, with its value unchanged; a stored pair survives
    /// when the predicate returned true on it and is dropped when it
    /// returned false.
    fn retain<F: Fn(K, &V) -> bool>(&mut self, f: F)
        requires
            old(self).inv(),
            forall|k: K, v: &V| call_requires(f, (k, v)),
        ensures
            final(self).inv(),
            forall|k: K| #[trigger]
                final(self).contents().dom().contains(k) ==> old(self).contents().dom().contains(
                    k,
                ) && final(self).contents()[k] == old(self).contents()[k],
            forall|k: K| #[trigger]
                old(self).contents().dom().contains(k) ==> call_ensures(
                    f,
                    (k, &old(self).contents()[k]),
                    final(self).contents().dom().contains(k),
                ),
    ;

    /// The stored pairs, in iteration order, by reference.
    fn iter(&self) -> (r: Vec<(K, &V)>)
        requires
            self.inv(),
        ensures
            r@.len() == self.order().len(),
            forall|i: int|
                0 <= i < r@.len() ==> (#[trigger] r@[i]).0 == self.order()[i] && *r@[i].1
                    == self.contents()[self.order()[i]],
    ;

    /// The stored pairs, in iteration order, by value. Consumes the storage.
    fn into_iter(self) -> (r: Vec<(K, V)>)
        requires
            self.inv(),
        ensures
            r@.len() == self.order().len(),
            forall|i: int|
                0 <= i < r@.len() ==> (#[trigger] r@[i]).0 == self.order()[i] && r@[i].1
                    == self.contents()[self.order()[i]],
    ;

    /// The stored keys, in iteration order.
    fn keys(&self) -> (r: Vec<K>)
        requires
            self.inv(),
        ensures
            r@ == self.order(),
    {
        let pairs = self.iter();
        let mut r: Vec<K> = Vec::new();
        let mut i: usize = 0;
        while i < pairs.len()
            invariant
                self.inv(),
                i <= pairs@.len(),
                pairs@.len() == self.order().len(),
                forall|j: int|
                    0 <= j < pairs@.len() ==> (#[trigger] pairs@[j]).0 == self.order()[j],
                r@ == self.order().take(i as int),
            decreases pairs@.len() - i,
        {
            r.push(pairs[i].0);
            proof {
                assert(r@ =~= self.order().take(i + 1));
            }
            i += 1;
        }
        proof {
            assert(r@ =~= self.order());
        }
        r
    }

    /// The stored values, in iteration order, by reference.
    fn values(&self) -> (r: Vec<&V>)
        requires
            self.inv(),
        ensures
            r@.len() == self.order().len(),
            forall|i: int|
                0 <= i < r@.len() ==> *(#[trigger] r@[i]) == self.contents()[self.order()[i]],
    {
        let pairs = self.iter();
        let mut r: Vec<&V> = Vec::new();
        let mut i: usize = 0;
        while i < pairs.len()
            invariant
                self.inv(),
                i <= pairs@.len(),
                pairs@.len() == self.order().len(),
                forall|j: int|
                    0 <= j < pairs@.len() ==> *(#[trigger] pairs@[j]).1 == self.contents()[
                        self.order()[j]
                    ],
                r@.len() == i,
                forall|j: int|
                    0 <= j < i ==> *(#[trigger] r@[j]) == self.contents()[self.order()[j]],
            decreases pairs@.len() - i,
        {
            r.push(pairs[i].1);
            i += 1;
        }
        r
    }

    /// Probe `key`: a vacant handle if it holds no value, an occupied handle
    /// if it holds one. Consumes the storage; the handle gives it back.
    fn entry(self, key: K) -> (e: Entry<Self::Vacant, Self::Occupied>)
        requires
            self.inv(),
        ensures
            (match e {
                Entry::Vacant(va) => !self.contents().dom().contains(key) && Self::vacant_wf(va)
                    && Self::vacant_key(va) == key && Self::vacant_rest(va) == self.contents(),
                Entry::Occupied(oc) => self.contents().dom().contains(key) && Self::occupied_wf(oc)
                    && Self::occupied_key(oc) == key && Self::occupied_contents(oc)
                    == self.contents(),
            }),
    ;

    /// The key a vacant handle is bound to.
    fn vacant_entry_key(va: &Self::Vacant) -> (k: K)
        requires
            Self::vacant_wf(*va),
        ensures
            k == Self::vacant_key(*va),
    ;

    /// Store `value` under a vacant handle's key and give the storage back.
    /// Consumes the handle: its single permitted mutation.
    fn vacant_insert(va: Self::Vacant, value: V) -> (s: Self)
        requires
            Self::vacant_wf(va),
            Self::vacant_rest(va).dom().len() < usize::MAX,
        ensures
            s.inv(),
            s.contents() == Self::vacant_rest(va).insert(Self::vacant_key(va), value),
    ;

    /// Give the storage behind a vacant handle back unchanged, discarding the
    /// handle.
    fn vacant_into_storage(va: Self::Vacant) -> (s: Self)
        requires
            Self::vacant_wf(va),
        ensures
            s.inv(),
            s.contents() == Self::vacant_rest(va),
    ;

    /// The key an occupied handle is bound to.
    fn occupied_entry_key(oc: &Self::Occupied) -> (k: K)
        requires
            Self::occupied_wf(*oc),
        ensures
            k == Self::occupied_key(*oc),
    ;

    /// A reference to the value an occupied handle holds.
    fn occupied_get(oc: &Self::Occupied) -> (v: &V)
        requires
            Self::occupied_wf(*oc),
        ensures
            *v == Self::occupied_contents(*oc)[Self::occupied_key(*oc)],
    ;

    /// A mutable reference to the value an occupied handle holds; writes
    /// through it update the value under the handle's key.
    fn occupied_get_mut(oc: &mut Self::Occupied) -> (v: &mut V)
        requires
            Self::occupied_wf(*old(oc)),
        ensures
            *v == Self::occupied_contents(*old(oc))[Self::occupied_key(*old(oc))],
            Self::occupied_wf(*final(oc)),
            Self::occupied_key(*final(oc)) == Self::occupied_key(*old(oc)),
            Self::occupied_contents(*final(oc)) == Self::occupied_contents(*old(oc)).insert(
                Self::occupied_key(*old(oc)),
                *final(v),
            ),
    ;

    /// Replace the value an occupied handle holds, returning the previous
    /// one. The handle stays usable and stays occupied.
    fn occupied_insert(oc: &mut Self::Occupied, value: V) -> (prev: V)
        requires
            Self::occupied_wf(*old(oc)),
        ensures
            prev == Self::occupied_contents(*old(oc))[Self::occupied_key(*old(oc))],
            Self::occupied_wf(*final(oc)),
            Self::occupied_key(*final(oc)) == Self::occupied_key(*old(oc)),
            Self::occupied_contents(*final(oc)) == Self::occupied_contents(*old(oc)).insert(
                Self::occupied_key(*old(oc)),
                value,
            ),
    ;

    /// Take the value out from under an occupied handle's key and give the
    /// storage back without that key. Consumes the handle.
    fn occupied_remove(oc: Self::Occupied) -> (r: (V, Self))
        requires
            Self::occupied_wf(oc),
        ensures
            r.0 == Self::occupied_contents(oc)[Self::occupied_key(oc)],
            r.1.inv(),
            r.1.contents() == Self::occupied_contents(oc).remove(Self::occupied_key(oc)),
    ;

    /// Give the storage behind an occupied handle back unchanged, discarding
    /// the handle.
    fn occupied_into_storage(oc: Self::Occupied) -> (s: Self)
        requires
            Self::occupied_wf(oc),
        ensures
            s.inv(),
            s.contents() == Self::occupied_contents(oc),
    ;
}

} // verus!
