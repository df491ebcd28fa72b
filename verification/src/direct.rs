//! Storage for finite-enumeration keys: one optional slot per declared
//! variant, addressed by the variant's position, never by hashing.

use vstd::prelude::*;
use crate::key::{key_at, EnumKey};
use crate::storage::{Entry, MapStorage};

verus! {

/// Map storage for a finite-enumeration key type: exactly one optional value
/// slot per declared variant.
///
/// `get`, `insert` and `remove` resolve directly from the key's declared
/// position to its slot; no hashing, no probing. Iteration visits occupied
/// slots in declaration order, whatever the insertion order was.
pub struct DirectMapStorage<K: EnumKey, V> {
    /// One optional value slot per declared variant; slot `i` belongs to the
    /// variant declared at position `i`.
    pub slots: Vec<Option<V>>,
    /// The count of occupied slots.
    pub occupied: usize,
    /// Ties the slot vector to the key type.
    pub marker: core::marker::PhantomData<K>,
}

/// The vacant handle of [`DirectMapStorage`]: remembers the storage and the
/// probed key, whose slot is empty.
pub struct DirectVacant<K: EnumKey, V> {
    /// The storage the handle was taken from.
    pub storage: DirectMapStorage<K, V>,
    /// The probed key.
    pub key: K,
}

/// The occupied handle of [`DirectMapStorage`]: remembers the storage and
/// the probed key, whose slot holds a value.
pub struct DirectOccupied<K: EnumKey, V> {
    /// The storage the handle was taken from.
    pub storage: DirectMapStorage<K, V>,
    /// The probed key.
    pub key: K,
}

/// The keys of the occupied slots among the first `n` slots of `s`, in slot
/// order: direct storage's iteration order is declaration order.
pub open spec fn order_prefix<K: EnumKey, V>(s: Seq<Option<V>>, n: int) -> Seq<K>
    decreases n,
{
    if n <= 0 {
        Seq::empty()
    } else if s[n - 1] is Some {
        order_prefix::<K, V>(s, n - 1).push(key_at::<K>((n - 1) as nat))
    } else {
        order_prefix::<K, V>(s, n - 1)
    }
}

/// The key at a declared position has that position as its index.
pub proof fn lemma_key_at_index<K: EnumKey>(i: nat)
    requires
        i < K::card(),
    ensures
        key_at::<K>(i).index() == i,
{
    K::lemma_index_onto(i);
}

/// The slot-order key sequence lists, in strictly increasing index order and
/// so without duplicates, exactly the keys whose slot among the first `n` is
/// occupied.
pub proof fn lemma_order_prefix_props<K: EnumKey, V>(s: Seq<Option<V>>, n: int)
    requires
        0 <= n <= K::card(),
    ensures
        forall|j: int|
            0 <= j < order_prefix::<K, V>(s, n).len() ==> (#[trigger] order_prefix::<K, V>(
                s,
                n,
            )[j]).index() < n && s[order_prefix::<K, V>(s, n)[j].index() as int] is Some,
        forall|j1: int, j2: int|
            0 <= j1 < j2 < order_prefix::<K, V>(s, n).len() ==> (#[trigger] order_prefix::<K, V>(
                s,
                n,
            )[j1]).index() < (#[trigger] order_prefix::<K, V>(s, n)[j2]).index(),
        forall|k: K|
            #[trigger] order_prefix::<K, V>(s, n).contains(k) <==> (k.index() < n && s[k.index()
                as int] is Some),
        order_prefix::<K, V>(s, n).no_duplicates(),
    decreases n,
{
    let ord = order_prefix::<K, V>(s, n);
    if n <= 0 {
        assert(forall|k: K| !ord.contains(k));
    } else {
        let pre = order_prefix::<K, V>(s, n - 1);
        lemma_order_prefix_props::<K, V>(s, n - 1);
        if s[n - 1] is Some {
            let kn = key_at::<K>((n - 1) as nat);
            lemma_key_at_index::<K>((n - 1) as nat);
            assert(ord == pre.push(kn));
            assert forall|k: K| #[trigger] ord.contains(k) implies (k.index() < n && s[k.index()
                as int] is Some) by {
                let j = choose|j: int| 0 <= j < ord.len() && ord[j] == k;
                if j < pre.len() {
                    assert(pre[j] == k);
                    assert(pre.contains(k));
                } else {
                    assert(k == kn);
                }
            }
            assert forall|k: K| (k.index() < n && s[k.index() as int] is Some) implies #[trigger]
                ord.contains(k) by {
                if k.index() < n - 1 {
                    assert(pre.contains(k));
                    let j = choose|j: int| 0 <= j < pre.len() && pre[j] == k;
                    assert(ord[j] == k);
                } else {
                    K::lemma_index_injective(k, kn);
                    assert(ord[ord.len() - 1] == k);
                }
            }
            assert forall|j: int| 0 <= j < ord.len() implies (#[trigger] ord[j]).index() < n && s[
                ord[j].index() as int
            ] is Some by {
                if j < pre.len() {
                    assert(pre[j] == ord[j]);
                }
            }
            assert(!pre.contains(kn));
            assert(ord.no_duplicates()) by {
                assert forall|j1: int, j2: int|
                    0 <= j1 < ord.len() && 0 <= j2 < ord.len() && j1 != j2 implies ord[j1] != ord[
                    j2
                ] by {
                    if j1 < pre.len() && j2 < pre.len() {
                        assert(pre[j1] == ord[j1] && pre[j2] == ord[j2]);
                    } else if j1 < pre.len() {
                        assert(pre[j1].index() < n - 1 && ord[j2] == kn);
                    } else {
                        assert(j2 < pre.len());
                        assert(pre[j2].index() < n - 1 && ord[j1] == kn);
                    }
                }
            }
        } else {
            assert(ord == pre);
        }
    }
}

/// Replacing the slot at `j` changes the slot-order key sequence's length by
/// the difference in occupancy, and not at all when occupancy is unchanged.
pub proof fn lemma_order_prefix_update<K: EnumKey, V>(s: Seq<Option<V>>, n: int, j: int, o: Option<V>)
    requires
        0 <= j < n <= K::card(),
        n <= s.len(),
    ensures
        order_prefix::<K, V>(s.update(j, o), n).len() == order_prefix::<K, V>(s, n).len() + (if o
            is Some {
            1int
        } else {
            0int
        }) - (if s[j] is Some {
            1int
        } else {
            0int
        }),
        (o is Some <==> s[j] is Some) ==> order_prefix::<K, V>(s.update(j, o), n)
            == order_prefix::<K, V>(s, n),
    decreases n,
{
    let t = s.update(j, o);
    if n - 1 == j {
        assert(order_prefix::<K, V>(t, n - 1) == order_prefix::<K, V>(s, n - 1)) by {
            lemma_order_prefix_same::<K, V>(s, t, n - 1);
        }
        assert(t[n - 1] == o);
    } else {
        lemma_order_prefix_update::<K, V>(s, n - 1, j, o);
        assert(t[n - 1] == s[n - 1]);
    }
}

/// Two slot vectors that agree on their first `n` slots order those slots
/// identically.
pub proof fn lemma_order_prefix_same<K: EnumKey, V>(s1: Seq<Option<V>>, s2: Seq<Option<V>>, n: int)
    requires
        n <= K::card(),
        forall|i: int| 0 <= i < n ==> s1[i] == s2[i],
    ensures
        order_prefix::<K, V>(s1, n) == order_prefix::<K, V>(s2, n),
    decreases n,
{
    if n > 0 {
        lemma_order_prefix_same::<K, V>(s1, s2, n - 1);
    }
}

/// Two slot vectors whose first `n` slots are occupied in the same pattern
/// order those slots identically: the order depends on which slots are
/// occupied, never on the values they hold.
pub proof fn lemma_order_prefix_same_presence<K: EnumKey, V>(
    s1: Seq<Option<V>>,
    s2: Seq<Option<V>>,
    n: int,
)
    requires
        n <= K::card(),
        forall|i: int| 0 <= i < n ==> (s1[i] is Some <==> s2[i] is Some),
    ensures
        order_prefix::<K, V>(s1, n) == order_prefix::<K, V>(s2, n),
    decreases n,
{
    if n > 0 {
        lemma_order_prefix_same_presence::<K, V>(s1, s2, n - 1);
    }
}

/// A run of empty slots contributes nothing to the slot-order key sequence.
pub proof fn lemma_order_prefix_all_none<K: EnumKey, V>(s: Seq<Option<V>>, n: int)
    requires
        n <= K::card(),
        forall|i: int| 0 <= i < n ==> s[i] is None,
    ensures
        order_prefix::<K, V>(s, n) == Seq::<K>::empty(),
    decreases n,
{
    if n > 0 {
        lemma_order_prefix_all_none::<K, V>(s, n - 1);
    }
}

impl<K: EnumKey, V> DirectMapStorage<K, V> {
    /// The iteration order covers the contents exactly once; in particular
    /// the occupied count matches the model.
    proof fn lemma_model(&self)
        requires
            self.inv(),
        ensures
            self.contents().dom().finite(),
            self.order().no_duplicates(),
            self.order().to_set() == self.contents().dom(),
            self.order().len() == self.contents().dom().len(),
            self.occupied == self.contents().dom().len(),
    {
        let ord = self.order();
        lemma_order_prefix_props::<K, V>(self.slots@, K::card() as int);
        assert forall|k: K| true implies (#[trigger] self.contents().dom().contains(k) <==> k.index()
            < K::card() && self.slots@[k.index() as int] is Some) by {
            k.lemma_index_bound();
        }
        assert(ord.to_set() =~= self.contents().dom()) by {
            assert forall|k: K| #[trigger] ord.to_set().contains(k) implies self.contents().dom().contains(
                k,
            ) by {
                assert(ord.contains(k));
            }
            assert forall|k: K| #[trigger] self.contents().dom().contains(k) implies ord.to_set().contains(
                k,
            ) by {
                assert(ord.contains(k));
            }
        }
        ord.unique_seq_to_set();
    }
}

impl<K: EnumKey, V> MapStorage<K, V> for DirectMapStorage<K, V> {
    type Vacant = DirectVacant<K, V>;

    type Occupied = DirectOccupied<K, V>;

    open spec fn inv(&self) -> bool {
        &&& self.slots@.len() == K::card()
        &&& self.occupied as nat == self.order().len()
    }

    open spec fn contents(&self) -> Map<K, V> {
        Map::new(
            |k: K| k.index() < self.slots@.len() && self.slots@[k.index() as int] is Some,
            |k: K| self.slots@[k.index() as int].unwrap(),
        )
    }

    open spec fn order(&self) -> Seq<K> {
        order_prefix::<K, V>(self.slots@, K::card() as int)
    }

    open spec fn vacant_wf(va: DirectVacant<K, V>) -> bool {
        va.storage.inv() && !va.storage.contents().dom().contains(va.key)
    }

    open spec fn vacant_key(va: DirectVacant<K, V>) -> K {
        va.key
    }

    open spec fn vacant_rest(va: DirectVacant<K, V>) -> Map<K, V> {
        va.storage.contents()
    }

    open spec fn occupied_wf(oc: DirectOccupied<K, V>) -> bool {
        oc.storage.inv() && oc.storage.contents().dom().contains(oc.key)
    }

    open spec fn occupied_key(oc: DirectOccupied<K, V>) -> K {
        oc.key
    }

    open spec fn occupied_contents(oc: DirectOccupied<K, V>) -> Map<K, V> {
        oc.storage.contents()
    }

    proof fn lemma_inv(&self) {
        self.lemma_model();
    }

    proof fn lemma_vacant_wf(va: DirectVacant<K, V>) {
        va.storage.lemma_model();
    }

    proof fn lemma_occupied_wf(oc: DirectOccupied<K, V>) {
        oc.storage.lemma_model();
    }

    fn empty() -> (s: Self) {
        let n = K::count();
        let mut slots: Vec<Option<V>> = Vec::new();
        let mut i: usize = 0;
        while i < n
            invariant
                i <= n,
                n == K::card(),
                slots@.len() == i,
                forall|j: int| 0 <= j < i ==> slots@[j] is None,
            decreases n - i,
        {
            slots.push(None);
            i += 1;
        }
        let s = DirectMapStorage { slots, occupied: 0, marker: core::marker::PhantomData };
        proof {
            lemma_order_prefix_all_none::<K, V>(s.slots@, K::card() as int);
            assert(s.contents() =~= Map::<K, V>::empty());
        }
        s
    }

    fn len(&self) -> (n: usize) {
        proof {
            self.lemma_model();
        }
        self.occupied
    }

    fn is_empty(&self) -> (e: bool) {
        proof {
            self.lemma_model();
        }
        self.occupied == 0
    }

    fn insert(&mut self, key: K, value: V) -> (prev: Option<V>) {
        proof {
            key.lemma_index_bound();
            old(self).lemma_model();
        }
        let i = key.to_index();
        let mut tmp: Option<V> = Some(value);
        core::mem::swap(&mut self.slots[i], &mut tmp);
        let prev = tmp;
        proof {
            lemma_order_prefix_update::<K, V>(
                old(self).slots@,
                K::card() as int,
                i as int,
                Some(value),
            );
        }
        if prev.is_none() {
            self.occupied = self.occupied + 1;
        }
        proof {
            assert forall|k: K| true implies #[trigger] self.contents().contains_key(k) == old(
                self,
            ).contents().insert(key, value).contains_key(k) && (self.contents().contains_key(k)
                ==> self.contents()[k] == old(self).contents().insert(key, value)[k]) by {
                if k.index() == key.index() {
                    K::lemma_index_injective(k, key);
                }
            }
            assert(self.contents() =~= old(self).contents().insert(key, value));
        }
        prev
    }

    fn contains_key(&self, key: K) -> (b: bool) {
        proof {
            key.lemma_index_bound();
        }
        let i = key.to_index();
        self.slots[i].is_some()
    }

    fn get(&self, key: K) -> (r: Option<&V>) {
        proof {
            key.lemma_index_bound();
        }
        let i = key.to_index();
        self.slots[i].as_ref()
    }

    fn get_mut(&mut self, key: K) -> (v: &mut V) {
        proof {
            key.lemma_index_bound();
            old(self).lemma_model();
            assert forall|st: Self, o: Option<V>|
                #![trigger st.slots@, old(self).slots@.update(key.index() as int, o)]
                st.slots@ == old(self).slots@.update(key.index() as int, o) && o is Some
                    && st.occupied == old(self).occupied implies st.inv() && st.contents() == old(
                self,
            ).contents().insert(key, o.unwrap()) && st.order() == old(self).order() by {
                lemma_order_prefix_update::<K, V>(
                    old(self).slots@,
                    K::card() as int,
                    key.index() as int,
                    o,
                );
                assert forall|k: K| true implies #[trigger] st.contents().contains_key(k) == old(
                    self,
                ).contents().insert(key, o.unwrap()).contains_key(k) && (st.contents().contains_key(
                    k,
                ) ==> st.contents()[k] == old(self).contents().insert(key, o.unwrap())[k]) by {
                    if k.index() == key.index() {
                        K::lemma_index_injective(k, key);
                    }
                }
                assert(st.contents() =~= old(self).contents().insert(key, o.unwrap()));
            }
        }
        let i = key.to_index();
        let slot = &mut self.slots[i];
        let inner = slot.as_mut();
        match inner {
            Some(v) => v,
            None => unreached(),
        }
    }

    fn remove(&mut self, key: K) -> (prev: Option<V>) {
        proof {
            key.lemma_index_bound();
            old(self).lemma_model();
        }
        let i = key.to_index();
        let mut tmp: Option<V> = None;
        core::mem::swap(&mut self.slots[i], &mut tmp);
        let prev = tmp;
        proof {
            lemma_order_prefix_update::<K, V>(
                old(self).slots@,
                K::card() as int,
                i as int,
                None,
            );
        }
        if prev.is_some() {
            self.occupied = self.occupied - 1;
        }
        proof {
            assert forall|k: K| true implies #[trigger] self.contents().contains_key(k) == old(
                self,
            ).contents().remove(key).contains_key(k) && (self.contents().contains_key(k)
                ==> self.contents()[k] == old(self).contents().remove(key)[k]) by {
                if k.index() == key.index() {
                    K::lemma_index_injective(k, key);
                }
            }
            assert(self.contents() =~= old(self).contents().remove(key));
        }
        prev
    }

    fn clear(&mut self) {
        let n = K::count();
        let mut slots: Vec<Option<V>> = Vec::new();
        let mut i: usize = 0;
        while i < n
            invariant
                i <= n,
                n == K::card(),
                slots@.len() == i,
                forall|j: int| 0 <= j < i ==> slots@[j] is None,
            decreases n - i,
        {
            slots.push(None);
            i += 1;
        }
        self.slots = slots;
        self.occupied = 0;
        proof {
            lemma_order_prefix_all_none::<K, V>(self.slots@, K::card() as int);
            assert(self.contents() =~= Map::<K, V>::empty());
        }
    }

    fn retain<F: Fn(K, &V) -> bool>(&mut self, f: F) {
        proof {
            old(self).lemma_model();
        }
        let n = K::count();
        let mut i: usize = 0;
        while i < n
            invariant
                old(self).inv(),
                n == K::card(),
                i <= n,
                self.slots@.len() == K::card(),
                self.occupied as nat == self.order().len(),
                forall|k: K, v: &V| call_requires(f, (k, v)),
                forall|j: int| i <= j < n ==> self.slots@[j] == old(self).slots@[j],
                forall|j: int|
                    0 <= j < i ==> (old(self).slots@[j] is None ==> self.slots@[j] is None),
                forall|j: int|
                    0 <= j < i && old(self).slots@[j] is Some ==> ((#[trigger] self.slots@[j])
                        == old(self).slots@[j] && call_ensures(
                        f,
                        (key_at::<K>(j as nat), &old(self).slots@[j].unwrap()),
                        true,
                    )) || (self.slots@[j] is None && call_ensures(
                        f,
                        (key_at::<K>(j as nat), &old(self).slots@[j].unwrap()),
                        false,
                    )),
            decreases n - i,
        {
            let keep = match &self.slots[i] {
                Some(v) => {
                    let k = K::from_index(i);
                    proof {
                        lemma_key_at_index::<K>(i as nat);
                        K::lemma_index_injective(k, key_at::<K>(i as nat));
                    }
                    f(k, v)
                },
                None => true,
            };
            if !keep {
                let mut tmp: Option<V> = None;
                let ghost before = self.slots@;
                core::mem::swap(&mut self.slots[i], &mut tmp);
                proof {
                    lemma_order_prefix_update::<K, V>(before, K::card() as int, i as int, None);
                }
                if tmp.is_some() {
                    self.occupied = self.occupied - 1;
                }
            }
            i += 1;
        }
        proof {
            assert forall|k: K| #[trigger] self.contents().dom().contains(k) implies old(
                self,
            ).contents().dom().contains(k) && self.contents()[k] == old(self).contents()[k] by {
                k.lemma_index_bound();
            }
            assert forall|k: K| #[trigger] old(self).contents().dom().contains(k) implies
                call_ensures(
                f,
                (k, &old(self).contents()[k]),
                self.contents().dom().contains(k),
            ) by {
                k.lemma_index_bound();
                lemma_key_at_index::<K>(k.index());
                K::lemma_index_injective(k, key_at::<K>(k.index()));
            }
        }
    }

    fn iter(&self) -> (r: Vec<(K, &V)>) {
        proof {
            self.lemma_model();
        }
        let n = K::count();
        let mut r: Vec<(K, &V)> = Vec::new();
        let mut i: usize = 0;
        while i < n
            invariant
                self.inv(),
                n == K::card(),
                i <= n,
                r@.len() == order_prefix::<K, V>(self.slots@, i as int).len(),
                forall|j: int|
                    0 <= j < r@.len() ==> (#[trigger] r@[j]).0 == order_prefix::<K, V>(
                        self.slots@,
                        i as int,
                    )[j] && *r@[j].1 == self.contents()[order_prefix::<K, V>(
                        self.slots@,
                        i as int,
                    )[j]],
            decreases n - i,
        {
            match &self.slots[i] {
                Some(v) => {
                    let k = K::from_index(i);
                    proof {
                        lemma_key_at_index::<K>(i as nat);
                        K::lemma_index_injective(k, key_at::<K>(i as nat));
                        assert(order_prefix::<K, V>(self.slots@, i + 1) == order_prefix::<K, V>(
                            self.slots@,
                            i as int,
                        ).push(k));
                    }
                    r.push((k, v));
                },
                None => {
                    proof {
                        assert(order_prefix::<K, V>(self.slots@, i + 1) == order_prefix::<K, V>(
                            self.slots@,
                            i as int,
                        ));
                    }
                },
            }
            i += 1;
        }
        r
    }

    fn into_iter(self) -> (r: Vec<(K, V)>) {
        proof {
            self.lemma_model();
        }
        let ghost orig = self;
        let mut this = self;
        let n = K::count();
        let mut r: Vec<(K, V)> = Vec::new();
        let mut i: usize = 0;
        while i < n
            invariant
                orig.inv(),
                n == K::card(),
                i <= n,
                this.slots@.len() == K::card(),
                forall|j: int| i <= j < n ==> this.slots@[j] == orig.slots@[j],
                r@.len() == order_prefix::<K, V>(orig.slots@, i as int).len(),
                forall|j: int|
                    0 <= j < r@.len() ==> (#[trigger] r@[j]).0 == order_prefix::<K, V>(
                        orig.slots@,
                        i as int,
                    )[j] && r@[j].1 == orig.contents()[order_prefix::<K, V>(
                        orig.slots@,
                        i as int,
                    )[j]],
            decreases n - i,
        {
            let mut tmp: Option<V> = None;
            core::mem::swap(&mut this.slots[i], &mut tmp);
            match tmp {
                Some(v) => {
                    let k = K::from_index(i);
                    proof {
                        lemma_key_at_index::<K>(i as nat);
                        K::lemma_index_injective(k, key_at::<K>(i as nat));
                        assert(order_prefix::<K, V>(orig.slots@, i + 1) == order_prefix::<K, V>(
                            orig.slots@,
                            i as int,
                        ).push(k));
                    }
                    r.push((k, v));
                },
                None => {
                    proof {
                        assert(order_prefix::<K, V>(orig.slots@, i + 1) == order_prefix::<K, V>(
                            orig.slots@,
                            i as int,
                        ));
                    }
                },
            }
            i += 1;
        }
        r
    }

    fn entry(self, key: K) -> (e: Entry<DirectVacant<K, V>, DirectOccupied<K, V>>) {
        if self.contains_key(key) {
            Entry::Occupied(DirectOccupied { storage: self, key })
        } else {
            Entry::Vacant(DirectVacant { storage: self, key })
        }
    }

    fn vacant_entry_key(va: &DirectVacant<K, V>) -> (k: K) {
        va.key
    }

    fn vacant_insert(va: DirectVacant<K, V>, value: V) -> (s: Self) {
        proof {
            va.storage.lemma_model();
        }
        let DirectVacant { storage, key } = va;
        let mut storage = storage;
        storage.insert(key, value);
        storage
    }

    fn vacant_into_storage(va: DirectVacant<K, V>) -> (s: Self) {
        let DirectVacant { storage, key: _ } = va;
        storage
    }

    fn occupied_entry_key(oc: &DirectOccupied<K, V>) -> (k: K) {
        oc.key
    }

    fn occupied_get(oc: &DirectOccupied<K, V>) -> (v: &V) {
        match oc.storage.get(oc.key) {
            Some(v) => v,
            None => unreached(),
        }
    }

    fn occupied_get_mut(oc: &mut DirectOccupied<K, V>) -> (v: &mut V) {
        let key = oc.key;
        oc.storage.get_mut(key)
    }

    fn occupied_insert(oc: &mut DirectOccupied<K, V>, value: V) -> (prev: V) {
        let key = oc.key;
        let slot = oc.storage.get_mut(key);
        let mut value = value;
        core::mem::swap(slot, &mut value);
        value
    }

    fn occupied_remove(oc: DirectOccupied<K, V>) -> (r: (V, Self)) {
        let DirectOccupied { storage, key } = oc;
        let mut storage = storage;
        proof {
            storage.lemma_model();
        }
        let prev = storage.remove(key);
        match prev {
            Some(v) => (v, storage),
            None => unreached(),
        }
    }

    fn occupied_into_storage(oc: DirectOccupied<K, V>) -> (s: Self) {
        let DirectOccupied { storage, key: _ } = oc;
        storage
    }
}

} // verus!
