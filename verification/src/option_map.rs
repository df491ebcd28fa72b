//! Storage for optional keys: lifts a strategy for `K` into a strategy for
//! `Option<K>` by adding one absent-branch slot beside the inner strategy.

use vstd::prelude::*;
use vstd::relations::injective;
use vstd::seq_lib::lemma_no_dup_in_concat;
use crate::storage::{Entry, MapStorage};

verus! {

/// Map storage for `Option<K>` keys, for any inner strategy storing `K`.
///
/// Keys of the form `Some(k)` live in the inner strategy (the present
/// branch); the key `None` lives in one dedicated slot (the absent branch).
/// Iteration yields all present-branch pairs first, in the inner strategy's
/// order, then the absent-branch pair last, if present.
pub struct OptionMapStorage<K: Copy, V, S: MapStorage<K, V>> {
    /// The inner strategy holding the values of `Some(_)` keys.
    pub present: S,
    /// The slot holding the value of the `None` key, if any.
    pub absent: Option<V>,
    /// Ties the struct to the inner strategy's key type.
    pub marker: core::marker::PhantomData<K>,
}

/// The vacant handle of [`OptionMapStorage`]: one arm per branch the probed
/// key fell in.
pub enum Vacant<K: Copy, V, S: MapStorage<K, V>> {
    /// The probed key was `None` and the absent slot is empty; the inner
    /// strategy rides along untouched.
    Absent { present: S },
    /// The probed key was `Some(_)`: the inner strategy's own vacant handle,
    /// with the absent slot riding along untouched.
    Present { entry: S::Vacant, absent: Option<V> },
}

/// The occupied handle of [`OptionMapStorage`]: one arm per branch the
/// probed key fell in.
pub enum Occupied<K: Copy, V, S: MapStorage<K, V>> {
    /// The probed key was `None`: the absent slot's value, taken out, with
    /// the inner strategy riding along untouched.
    Absent { present: S, value: V },
    /// The probed key was `Some(_)`: the inner strategy's own occupied
    /// handle, with the absent slot riding along untouched.
    Present { entry: S::Occupied, absent: Option<V> },
}

/// The model of an optional-key storage: the inner contents under `Some`
/// keys, plus the absent slot's value, if any, under `None`.
pub open spec fn compose_contents<K, V>(inner: Map<K, V>, absent: Option<V>) -> Map<Option<K>, V> {
    Map::new(
        |k: Option<K>|
            match k {
                Some(kk) => inner.dom().contains(kk),
                None => absent is Some,
            },
        |k: Option<K>|
            match k {
                Some(kk) => inner[kk],
                None => absent.unwrap(),
            },
    )
}

/// The iteration order of an optional-key storage: the inner order wrapped
/// in `Some`, then `None` last if the absent slot is occupied.
pub open spec fn compose_order<K>(inner: Seq<K>, absent_occupied: bool) -> Seq<Option<K>> {
    inner.map_values(|k: K| Some(k)) + (if absent_occupied {
        seq![None::<K>]
    } else {
        Seq::empty()
    })
}

/// Wrapping a finite key set in `Some` preserves its size.
pub(crate) proof fn lemma_some_image_len<K>(s: Set<K>)
    requires
        s.finite(),
    ensures
        s.map(|k: K| Some(k)).finite(),
        s.map(|k: K| Some(k)).len() == s.len(),
    decreases s.len(),
{
    broadcast use vstd::set::group_set_axioms;
    broadcast use vstd::set_lib::lemma_set_empty_equivalency_len;

    let f = |k: K| Some(k);
    if s.len() == 0 {
        assert(s =~= Set::empty());
        assert forall|x: Option<K>| !(#[trigger] s.map(f).contains(x)) by {
            if s.map(f).contains(x) {
                let y = choose|y: K| s.contains(y) && f(y) == x;
            }
        }
        assert(s.map(f) =~= Set::empty());
    } else {
        let x = choose|x: K| s.contains(x);
        let rest = s.remove(x);
        lemma_some_image_len(rest);
        assert(s.map(f) =~= rest.map(f).insert(Some(x))) by {
            assert forall|z: Option<K>| #[trigger] s.map(f).contains(z) implies rest.map(f).insert(
                Some(x),
            ).contains(z) by {
                let y = choose|y: K| s.contains(y) && f(y) == z;
                if y != x {
                    assert(rest.contains(y));
                    assert(rest.map(f).contains(z));
                }
            }
            assert forall|z: Option<K>| #[trigger]
                rest.map(f).insert(Some(x)).contains(z) implies s.map(f).contains(z) by {
                if z == Some(x) {
                    assert(s.contains(x) && f(x) == z);
                } else {
                    let y = choose|y: K| rest.contains(y) && f(y) == z;
                    assert(s.contains(y));
                }
            }
        }
        assert(!rest.map(f).contains(Some(x))) by {
            if rest.map(f).contains(Some(x)) {
                let y = choose|y: K| rest.contains(y) && f(y) == Some(x);
                assert(y == x);
            }
        }
    }
}

/// The composed domain is the inner domain wrapped in `Some`, plus `None`
/// when the absent slot is occupied; its size is the inner size plus at most
/// one.
pub proof fn lemma_compose_dom<K, V>(m: Map<K, V>, a: Option<V>)
    requires
        m.dom().finite(),
    ensures
        compose_contents(m, a).dom().finite(),
        compose_contents(m, a).dom().len() == m.dom().len() + (if a is Some {
            1int
        } else {
            0int
        }),
        forall|k: K| #[trigger]
            compose_contents(m, a).dom().contains(Some(k)) <==> m.dom().contains(k),
        compose_contents(m, a).dom().contains(None::<K>) <==> a is Some,
        forall|k: K|
            m.dom().contains(k) ==> #[trigger] compose_contents(m, a)[Some(k)] == m[k],
        a is Some ==> compose_contents(m, a)[None::<K>] == a.unwrap(),
{
    let f = |k: K| Some(k);
    lemma_some_image_len(m.dom());
    let base = m.dom().map(f);
    assert(!base.contains(None)) by {
        if base.contains(None::<K>) {
            let y = choose|y: K| m.dom().contains(y) && f(y) == None::<K>;
        }
    }
    assert(base =~= compose_contents(m, None::<V>).dom()) by {
        assert forall|x: Option<K>| #[trigger] base.contains(x) implies compose_contents(
            m,
            None::<V>,
        ).dom().contains(x) by {
            let y = choose|y: K| m.dom().contains(y) && f(y) == x;
        }
        assert forall|x: Option<K>| #[trigger]
            compose_contents(m, None::<V>).dom().contains(x) implies base.contains(x) by {
            match x {
                Some(kk) => {
                    assert(m.dom().contains(kk) && f(kk) == x);
                },
                None => {},
            }
        }
    }
    if a is Some {
        assert(compose_contents(m, a).dom() =~= base.insert(None));
    } else {
        assert(compose_contents(m, a).dom() =~= base);
    }
}

impl<K: Copy, V, S: MapStorage<K, V>> OptionMapStorage<K, V, S> {
    /// The composed order covers the composed contents exactly once, and the
    /// composed size is the inner size plus one when the absent slot is
    /// occupied.
    proof fn lemma_model(&self)
        requires
            self.present.inv(),
        ensures
            self.contents().dom().finite(),
            self.order().no_duplicates(),
            self.order().to_set() == self.contents().dom(),
            self.order().len() == self.contents().dom().len(),
            self.contents().dom().len() == self.present.contents().dom().len() + (if self.absent
                is Some {
                1int
            } else {
                0int
            }),
    {
        let f = |k: K| Some(k);
        self.present.lemma_inv();
        let iord = self.present.order();
        let mapped = iord.map_values(f);
        let tail: Seq<Option<K>> = if self.absent is Some {
            seq![None::<K>]
        } else {
            Seq::empty()
        };
        assert(injective(f));
        iord.lemma_no_duplicates_injective(f);
        lemma_no_dup_in_concat(mapped, tail);
        assert(self.order().no_duplicates());
        assert(self.order().to_set() =~= self.contents().dom()) by {
            assert forall|x: Option<K>| #[trigger]
                self.order().to_set().contains(x) implies self.contents().dom().contains(x) by {
                assert(self.order().contains(x));
                let j = choose|j: int| 0 <= j < self.order().len() && self.order()[j] == x;
                if j < mapped.len() {
                    assert(iord.contains(iord[j]));
                    assert(self.present.contents().dom().contains(iord[j]));
                }
            }
            assert forall|x: Option<K>| #[trigger]
                self.contents().dom().contains(x) implies self.order().to_set().contains(x) by {
                match x {
                    Some(kk) => {
                        assert(self.present.contents().dom().contains(kk));
                        assert(iord.to_set().contains(kk));
                        assert(iord.contains(kk));
                        let j = choose|j: int| 0 <= j < iord.len() && iord[j] == kk;
                        assert(self.order()[j] == Some(kk));
                        assert(self.order().contains(x));
                    },
                    None => {
                        assert(self.order()[self.order().len() - 1] == None::<K>);
                        assert(self.order().contains(x));
                    },
                }
            }
        }
        self.order().unique_seq_to_set();
        lemma_some_image_len(self.present.contents().dom());
        assert(iord.to_set() == self.present.contents().dom());
        iord.unique_seq_to_set();
        assert(mapped.to_set() =~= self.present.contents().dom().map(f)) by {
            iord.lemma_to_set_map_commutes(f);
        }
        mapped.unique_seq_to_set();
        assert(mapped.len() == self.present.contents().dom().len());
        assert(self.order().len() == mapped.len() + tail.len());
    }
}

impl<K: Copy, V, S: MapStorage<K, V>> Vacant<K, V, S> {
    /// The key this handle is bound to.
    pub fn key(&self) -> (k: Option<K>)
        requires
            OptionMapStorage::<K, V, S>::vacant_wf(*self),
        ensures
            k == OptionMapStorage::<K, V, S>::vacant_key(*self),
    {
        OptionMapStorage::<K, V, S>::vacant_entry_key(self)
    }

    /// Store `value` under the bound key and give the storage back,
    /// consuming the handle.
    pub fn insert(self, value: V) -> (s: OptionMapStorage<K, V, S>)
        requires
            OptionMapStorage::<K, V, S>::vacant_wf(self),
            OptionMapStorage::<K, V, S>::vacant_rest(self).dom().len() < usize::MAX,
        ensures
            s.inv(),
            s.contents() == OptionMapStorage::<K, V, S>::vacant_rest(self).insert(
                OptionMapStorage::<K, V, S>::vacant_key(self),
                value,
            ),
    {
        OptionMapStorage::<K, V, S>::vacant_insert(self, value)
    }

    /// Give the storage back unchanged, discarding the handle.
    pub fn into_storage(self) -> (s: OptionMapStorage<K, V, S>)
        requires
            OptionMapStorage::<K, V, S>::vacant_wf(self),
        ensures
            s.inv(),
            s.contents() == OptionMapStorage::<K, V, S>::vacant_rest(self),
    {
        OptionMapStorage::<K, V, S>::vacant_into_storage(self)
    }
}

impl<K: Copy, V, S: MapStorage<K, V>> Occupied<K, V, S> {
    /// The key this handle is bound to.
    pub fn key(&self) -> (k: Option<K>)
        requires
            OptionMapStorage::<K, V, S>::occupied_wf(*self),
        ensures
            k == OptionMapStorage::<K, V, S>::occupied_key(*self),
    {
        OptionMapStorage::<K, V, S>::occupied_entry_key(self)
    }

    /// A reference to the stored value.
    pub fn get(&self) -> (v: &V)
        requires
            OptionMapStorage::<K, V, S>::occupied_wf(*self),
        ensures
            *v == OptionMapStorage::<K, V, S>::occupied_contents(*self)[OptionMapStorage::<
                K,
                V,
                S,
            >::occupied_key(*self)],
    {
        OptionMapStorage::<K, V, S>::occupied_get(self)
    }

    /// A mutable reference to the stored value.
    pub fn get_mut(&mut self) -> (v: &mut V)
        requires
            OptionMapStorage::<K, V, S>::occupied_wf(*old(self)),
        ensures
            *v == OptionMapStorage::<K, V, S>::occupied_contents(*old(self))[OptionMapStorage::<
                K,
                V,
                S,
            >::occupied_key(*old(self))],
            OptionMapStorage::<K, V, S>::occupied_wf(*final(self)),
            OptionMapStorage::<K, V, S>::occupied_key(*final(self)) == OptionMapStorage::<
                K,
                V,
                S,
            >::occupied_key(*old(self)),
            OptionMapStorage::<K, V, S>::occupied_contents(*final(self)) == OptionMapStorage::<
                K,
                V,
                S,
            >::occupied_contents(*old(self)).insert(
                OptionMapStorage::<K, V, S>::occupied_key(*old(self)),
                *final(v),
            ),
    {
        OptionMapStorage::<K, V, S>::occupied_get_mut(self)
    }

    /// Replace the stored value, returning the previous one.
    pub fn insert(&mut self, value: V) -> (prev: V)
        requires
            OptionMapStorage::<K, V, S>::occupied_wf(*old(self)),
        ensures
            prev == OptionMapStorage::<K, V, S>::occupied_contents(*old(self))[OptionMapStorage::<
                K,
                V,
                S,
            >::occupied_key(*old(self))],
            OptionMapStorage::<K, V, S>::occupied_wf(*final(self)),
            OptionMapStorage::<K, V, S>::occupied_key(*final(self)) == OptionMapStorage::<
                K,
                V,
                S,
            >::occupied_key(*old(self)),
            OptionMapStorage::<K, V, S>::occupied_contents(*final(self)) == OptionMapStorage::<
                K,
                V,
                S,
            >::occupied_contents(*old(self)).insert(
                OptionMapStorage::<K, V, S>::occupied_key(*old(self)),
                value,
            ),
    {
        OptionMapStorage::<K, V, S>::occupied_insert(self, value)
    }

    /// Take the stored value out and give the storage back without the
    /// bound key, consuming the handle.
    pub fn remove(self) -> (r: (V, OptionMapStorage<K, V, S>))
        requires
            OptionMapStorage::<K, V, S>::occupied_wf(self),
        ensures
            r.0 == OptionMapStorage::<K, V, S>::occupied_contents(self)[OptionMapStorage::<
                K,
                V,
                S,
            >::occupied_key(self)],
            r.1.inv(),
            r.1.contents() == OptionMapStorage::<K, V, S>::occupied_contents(self).remove(
                OptionMapStorage::<K, V, S>::occupied_key(self),
            ),
    {
        OptionMapStorage::<K, V, S>::occupied_remove(self)
    }

    /// Give the storage back unchanged, discarding the handle.
    pub fn into_storage(self) -> (s: OptionMapStorage<K, V, S>)
        requires
            OptionMapStorage::<K, V, S>::occupied_wf(self),
        ensures
            s.inv(),
            s.contents() == OptionMapStorage::<K, V, S>::occupied_contents(self),
    {
        OptionMapStorage::<K, V, S>::occupied_into_storage(self)
    }
}

impl<K: Copy, V, S: MapStorage<K, V>> MapStorage<Option<K>, V> for OptionMapStorage<K, V, S> {
    type Vacant = Vacant<K, V, S>;

    type Occupied = Occupied<K, V, S>;

    open spec fn inv(&self) -> bool {
        &&& self.present.inv()
        &&& self.absent is Some ==> self.present.contents().dom().len() < usize::MAX
    }

    open spec fn contents(&self) -> Map<Option<K>, V> {
        compose_contents(self.present.contents(), self.absent)
    }

    open spec fn order(&self) -> Seq<Option<K>> {
        compose_order(self.present.order(), self.absent is Some)
    }

    open spec fn vacant_wf(va: Vacant<K, V, S>) -> bool {
        match va {
            Vacant::Absent { present } => present.inv(),
            Vacant::Present { entry, absent } => S::vacant_wf(entry) && (absent is Some
                ==> S::vacant_rest(entry).dom().len() < usize::MAX),
        }
    }

    open spec fn vacant_key(va: Vacant<K, V, S>) -> Option<K> {
        match va {
            Vacant::Absent { present } => None,
            Vacant::Present { entry, absent } => Some(S::vacant_key(entry)),
        }
    }

    open spec fn vacant_rest(va: Vacant<K, V, S>) -> Map<Option<K>, V> {
        match va {
            Vacant::Absent { present } => compose_contents(present.contents(), None::<V>),
            Vacant::Present { entry, absent } => compose_contents(S::vacant_rest(entry), absent),
        }
    }

    open spec fn occupied_wf(oc: Occupied<K, V, S>) -> bool {
        match oc {
            Occupied::Absent { present, value } => present.inv() && present.contents().dom().len()
                < usize::MAX,
            Occupied::Present { entry, absent } => S::occupied_wf(entry) && (absent is Some
                ==> S::occupied_contents(entry).dom().len() < usize::MAX),
        }
    }

    open spec fn occupied_key(oc: Occupied<K, V, S>) -> Option<K> {
        match oc {
            Occupied::Absent { present, value } => None,
            Occupied::Present { entry, absent } => Some(S::occupied_key(entry)),
        }
    }

    open spec fn occupied_contents(oc: Occupied<K, V, S>) -> Map<Option<K>, V> {
        match oc {
            Occupied::Absent { present, value } => compose_contents(
                present.contents(),
                Some(value),
            ),
            Occupied::Present { entry, absent } => compose_contents(
                S::occupied_contents(entry),
                absent,
            ),
        }
    }

    proof fn lemma_inv(&self) {
        self.lemma_model();
        self.present.lemma_inv();
    }

    proof fn lemma_vacant_wf(va: Vacant<K, V, S>) {
        match va {
            Vacant::Absent { present } => {
                present.lemma_inv();
                lemma_compose_dom(present.contents(), None::<V>);
            },
            Vacant::Present { entry, absent } => {
                S::lemma_vacant_wf(entry);
                lemma_compose_dom(S::vacant_rest(entry), absent);
            },
        }
    }

    proof fn lemma_occupied_wf(oc: Occupied<K, V, S>) {
        match oc {
            Occupied::Absent { present, value } => {
                present.lemma_inv();
                lemma_compose_dom(present.contents(), Some(value));
            },
            Occupied::Present { entry, absent } => {
                S::lemma_occupied_wf(entry);
                lemma_compose_dom(S::occupied_contents(entry), absent);
            },
        }
    }

    fn empty() -> (s: Self) {
        let s = OptionMapStorage {
            present: S::empty(),
            absent: None,
            marker: core::marker::PhantomData,
        };
        proof {
            s.present.lemma_inv();
            lemma_compose_dom(s.present.contents(), s.absent);
            assert forall|k: Option<K>| !(#[trigger] s.contents().dom().contains(k)) by {
                match k {
                    Some(kk) => {
                        assert(!s.present.contents().dom().contains(kk));
                    },
                    None => {},
                }
            }
            assert(s.contents() =~= Map::<Option<K>, V>::empty());
            assert(s.order() =~= Seq::<Option<K>>::empty());
        }
        s
    }

    fn len(&self) -> (n: usize) {
        proof {
            self.lemma_model();
        }
        let base = self.present.len();
        if self.absent.is_some() {
            base + 1
        } else {
            base
        }
    }

    fn is_empty(&self) -> (e: bool) {
        proof {
            self.lemma_model();
            self.present.lemma_inv();
        }
        self.present.is_empty() && self.absent.is_none()
    }

    fn insert(&mut self, key: Option<K>, value: V) -> (prev: Option<V>) {
        proof {
            old(self).lemma_model();
        }
        match key {
            Some(kk) => {
                proof {
                    old(self).present.lemma_inv();
                }
                let prev = self.present.insert(kk, value);
                proof {
                    self.present.lemma_inv();
                    assert(self.contents() =~= old(self).contents().insert(key, value));
                }
                prev
            },
            None => {
                let prev = self.absent.take();
                self.absent = Some(value);
                proof {
                    assert(self.contents() =~= old(self).contents().insert(key, value));
                }
                prev
            },
        }
    }

    fn contains_key(&self, key: Option<K>) -> (b: bool) {
        match key {
            Some(kk) => self.present.contains_key(kk),
            None => self.absent.is_some(),
        }
    }

    fn get(&self, key: Option<K>) -> (r: Option<&V>) {
        match key {
            Some(kk) => self.present.get(kk),
            None => self.absent.as_ref(),
        }
    }

    fn get_mut(&mut self, key: Option<K>) -> (v: &mut V) {
        match key {
            Some(kk) => {
                proof {
                    broadcast use vstd::set::group_set_axioms;

                    old(self).present.lemma_inv();
                    assert forall|m: Map<K, V>, w: V|
                        #![trigger compose_contents(m, old(self).absent), old(self).contents().insert(key, w)]
                        m == old(self).present.contents().insert(kk, w) implies compose_contents(
                        m,
                        old(self).absent,
                    ) == old(self).contents().insert(key, w) && m.dom().len() == old(
                        self,
                    ).present.contents().dom().len() by {
                        assert(compose_contents(m, old(self).absent) =~= old(
                            self,
                        ).contents().insert(key, w));
                        assert(old(self).present.contents().dom().contains(kk));
                        assert(m.dom() =~= old(self).present.contents().dom());
                    }
                }
                self.present.get_mut(kk)
            },
            None => {
                proof {
                    assert forall|w: V| true implies #[trigger] compose_contents(
                        old(self).present.contents(),
                        Some(w),
                    ) == old(self).contents().insert(key, w) by {
                        assert(compose_contents(old(self).present.contents(), Some(w)) =~= old(
                            self,
                        ).contents().insert(key, w));
                    }
                }
                let slot = self.absent.as_mut();
                match slot {
                    Some(v) => v,
                    None => unreached(),
                }
            },
        }
    }

    fn remove(&mut self, key: Option<K>) -> (prev: Option<V>) {
        proof {
            old(self).lemma_model();
        }
        match key {
            Some(kk) => {
                proof {
                    old(self).present.lemma_inv();
                }
                let prev = self.present.remove(kk);
                proof {
                    self.present.lemma_inv();
                    assert(self.contents() =~= old(self).contents().remove(key));
                }
                prev
            },
            None => {
                let prev = self.absent.take();
                proof {
                    assert(self.contents() =~= old(self).contents().remove(key));
                }
                prev
            },
        }
    }

    fn clear(&mut self) {
        self.present.clear();
        self.absent = None;
        proof {
            assert(self.contents() =~= Map::<Option<K>, V>::empty());
            assert(self.order() =~= Seq::<Option<K>>::empty());
        }
    }

    fn retain<F: Fn(Option<K>, &V) -> bool>(&mut self, f: F) {
        proof {
            old(self).lemma_model();
            old(self).present.lemma_inv();
        }
        let ghost old_present = old(self).present.contents();
        let pairs = self.present.iter();
        let mut drop_keys: Vec<K> = Vec::new();
        let mut i: usize = 0;
        while i < pairs.len()
            invariant
                *self == *old(self),
                old(self).present.inv(),
                forall|k: Option<K>, v: &V| call_requires(f, (k, v)),
                pairs@.len() == old(self).present.order().len(),
                forall|j: int|
                    0 <= j < pairs@.len() ==> (#[trigger] pairs@[j]).0 == old(
                        self,
                    ).present.order()[j] && *pairs@[j].1 == old_present[old(
                        self,
                    ).present.order()[j]] && old_present.dom().contains(old(
                        self,
                    ).present.order()[j]),
                i <= pairs@.len(),
                forall|j: int|
                    0 <= j < drop_keys@.len() ==> old_present.dom().contains(
                        #[trigger] drop_keys@[j],
                    ) && call_ensures(f, (Some(drop_keys@[j]), &old_present[drop_keys@[j]]), false),
                forall|j: int|
                    0 <= j < i ==> drop_keys@.contains((#[trigger] pairs@[j]).0) || call_ensures(
                        f,
                        (Some(pairs@[j].0), &old_present[pairs@[j].0]),
                        true,
                    ),
            decreases pairs@.len() - i,
        {
            let (k, v) = pairs[i];
            let ghost dk0 = drop_keys@;
            if !f(Some(k), v) {
                drop_keys.push(k);
                proof {
                    assert(drop_keys@.contains(k)) by {
                        assert(drop_keys@[drop_keys@.len() - 1] == k);
                    }
                    assert forall|j: int| 0 <= j < i + 1 implies drop_keys@.contains(
                        (#[trigger] pairs@[j]).0,
                    ) || call_ensures(f, (Some(pairs@[j].0), &old_present[pairs@[j].0]), true) by {
                        if j < i && dk0.contains(pairs@[j].0) {
                            let t = choose|t: int| 0 <= t < dk0.len() && dk0[t] == pairs@[j].0;
                            assert(drop_keys@[t] == pairs@[j].0);
                        }
                    }
                }
            }
            i += 1;
        }
        proof {
            assert forall|kk: K| #[trigger] old_present.dom().contains(kk) implies drop_keys@.contains(
                kk,
            ) || call_ensures(f, (Some(kk), &old_present[kk]), true) by {
                old(self).present.lemma_inv();
                assert(old(self).present.order().to_set().contains(kk));
                assert(old(self).present.order().contains(kk));
                let j = choose|j: int|
                    0 <= j < old(self).present.order().len() && old(self).present.order()[j] == kk;
                assert(pairs@[j].0 == kk);
            }
        }
        let mut t: usize = 0;
        while t < drop_keys.len()
            invariant
                self.present.inv(),
                self.absent == old(self).absent,
                forall|kk: K| #[trigger]
                    old_present.dom().contains(kk) ==> drop_keys@.contains(kk) || call_ensures(
                        f,
                        (Some(kk), &old_present[kk]),
                        true,
                    ),
                forall|j: int|
                    0 <= j < drop_keys@.len() ==> old_present.dom().contains(
                        #[trigger] drop_keys@[j],
                    ) && call_ensures(f, (Some(drop_keys@[j]), &old_present[drop_keys@[j]]), false),
                t <= drop_keys@.len(),
                forall|k: K| #[trigger]
                    self.present.contents().dom().contains(k) ==> old_present.dom().contains(k)
                        && self.present.contents()[k] == old_present[k],
                forall|k: K| #[trigger]
                    old_present.dom().contains(k) ==> self.present.contents().dom().contains(k)
                        || drop_keys@.take(t as int).contains(k),
                forall|j: int|
                    0 <= j < t ==> !self.present.contents().dom().contains(
                        (#[trigger] drop_keys@[j]),
                    ),
            decreases drop_keys@.len() - t,
        {
            let k = drop_keys[t];
            self.present.remove(k);
            proof {
                assert forall|k2: K| #[trigger] old_present.dom().contains(k2) implies
                    self.present.contents().dom().contains(k2) || drop_keys@.take(
                    t + 1,
                ).contains(k2) by {
                    if !self.present.contents().dom().contains(k2) {
                        if k2 == k {
                            assert(drop_keys@.take(t + 1)[t as int] == k);
                        } else {
                            assert(drop_keys@.take(t as int).contains(k2) ==> drop_keys@.take(
                                t + 1,
                            ).contains(k2)) by {
                                if drop_keys@.take(t as int).contains(k2) {
                                    let j = choose|j: int|
                                        0 <= j < t && drop_keys@.take(t as int)[j] == k2;
                                    assert(drop_keys@.take(t + 1)[j] == k2);
                                }
                            }
                        }
                    }
                }
            }
            t += 1;
        }
        let taken = self.absent.take();
        match taken {
            Some(v) => {
                if f(None, &v) {
                    self.absent = Some(v);
                }
            },
            None => {},
        }
        proof {
            self.present.lemma_inv();
            lemma_compose_dom(old_present, old(self).absent);
            lemma_compose_dom(self.present.contents(), self.absent);
            vstd::set_lib::lemma_len_subset(
                self.present.contents().dom(),
                old(self).present.contents().dom(),
            );
            assert forall|k: Option<K>| #[trigger]
                self.contents().dom().contains(k) implies old(self).contents().dom().contains(k)
                && self.contents()[k] == old(self).contents()[k] by {}
            assert forall|k: Option<K>| #[trigger]
                old(self).contents().dom().contains(k) implies call_ensures(
                f,
                (k, &old(self).contents()[k]),
                self.contents().dom().contains(k),
            ) by {
                match k {
                    Some(kk) => {
                        assert(old_present.dom().contains(kk));
                        if drop_keys@.contains(kk) {
                            let jj = choose|jj: int|
                                0 <= jj < drop_keys@.len() && drop_keys@[jj] == kk;
                            assert(!self.present.contents().dom().contains(kk));
                        } else {
                            assert(self.present.contents().dom().contains(kk)) by {
                                assert(drop_keys@.take(drop_keys@.len() as int) =~= drop_keys@);
                            }
                            assert(call_ensures(f, (Some(kk), &old_present[kk]), true));
                        }
                    },
                    None => {},
                }
            }
        }
    }

    fn iter(&self) -> (r: Vec<(Option<K>, &V)>) {
        proof {
            self.lemma_model();
            self.present.lemma_inv();
        }
        let pairs = self.present.iter();
        let mut r: Vec<(Option<K>, &V)> = Vec::new();
        let mut i: usize = 0;
        while i < pairs.len()
            invariant
                self.inv(),
                i <= pairs@.len(),
                pairs@.len() == self.present.order().len(),
                forall|j: int|
                    0 <= j < pairs@.len() ==> (#[trigger] pairs@[j]).0 == self.present.order()[j]
                        && *pairs@[j].1 == self.present.contents()[self.present.order()[j]],
                r@.len() == i,
                forall|j: int|
                    0 <= j < i ==> (#[trigger] r@[j]).0 == self.order()[j] && *r@[j].1
                        == self.contents()[self.order()[j]],
            decreases pairs@.len() - i,
        {
            let (k, v) = pairs[i];
            proof {
                assert(self.present.order().contains(k)) by {
                    assert(self.present.order()[i as int] == k);
                }
                assert(self.present.contents().dom().contains(k)) by {
                    self.present.lemma_inv();
                }
                assert(self.order()[i as int] == Some(k));
                assert(self.contents()[Some(k)] == self.present.contents()[k]);
            }
            r.push((Some(k), v));
            i += 1;
        }
        match &self.absent {
            Some(v) => {
                proof {
                    assert(self.order()[self.order().len() - 1] == None::<K>);
                }
                r.push((None, v));
            },
            None => {},
        }
        r
    }

    fn into_iter(self) -> (r: Vec<(Option<K>, V)>) {
        proof {
            self.lemma_model();
        }
        let ghost orig = self;
        let OptionMapStorage { present, absent, marker: _ } = self;
        let mut pairs = present.into_iter();
        let ghost all = pairs@;
        let mut r: Vec<(Option<K>, V)> = Vec::new();
        while pairs.len() > 0
            invariant
                orig.present.inv(),
                r@.len() + pairs@.len() == all.len(),
                forall|j: int| 0 <= j < pairs@.len() ==> pairs@[j] == all[r@.len() + j],
                all.len() == orig.present.order().len(),
                forall|j: int|
                    0 <= j < all.len() ==> (#[trigger] all[j]).0 == orig.present.order()[j]
                        && all[j].1 == orig.present.contents()[orig.present.order()[j]],
                forall|j: int|
                    0 <= j < r@.len() ==> (#[trigger] r@[j]).0 == orig.order()[j] && r@[j].1
                        == orig.contents()[orig.order()[j]],
                orig.order().len() == all.len() + (if orig.absent is Some {
                    1int
                } else {
                    0int
                }),
            decreases pairs@.len(),
        {
            let p = pairs.remove(0);
            proof {
                let j = r@.len() as int;
                assert(p == all[j]);
                assert(orig.present.order().contains(all[j].0)) by {
                    assert(orig.present.order()[j] == all[j].0);
                }
                assert(orig.present.contents().dom().contains(all[j].0)) by {
                    orig.present.lemma_inv();
                }
                assert(orig.order()[j] == Some(all[j].0));
                assert(orig.contents()[Some(all[j].0)] == orig.present.contents()[all[j].0]);
            }
            r.push((Some(p.0), p.1));
        }
        match absent {
            Some(v) => {
                proof {
                    assert(orig.order()[orig.order().len() - 1] == None::<K>);
                }
                r.push((None, v));
            },
            None => {},
        }
        r
    }

    fn entry(self, key: Option<K>) -> (e: Entry<Vacant<K, V, S>, Occupied<K, V, S>>) {
        proof {
            self.lemma_model();
            self.present.lemma_inv();
        }
        let OptionMapStorage { present, absent, marker: _ } = self;
        match key {
            Some(kk) => match present.entry(kk) {
                Entry::Occupied(entry) => {
                    proof {
                        assert(compose_contents(S::occupied_contents(entry), absent)
                            =~= self.contents());
                    }
                    Entry::Occupied(Occupied::Present { entry, absent })
                },
                Entry::Vacant(entry) => {
                    proof {
                        assert(compose_contents(S::vacant_rest(entry), absent) =~= self.contents());
                    }
                    Entry::Vacant(Vacant::Present { entry, absent })
                },
            },
            None => match absent {
                Some(v) => {
                    proof {
                        assert(compose_contents(present.contents(), Some(v)) =~= self.contents());
                    }
                    Entry::Occupied(Occupied::Absent { present, value: v })
                },
                None => {
                    proof {
                        assert(compose_contents(present.contents(), None::<V>)
                            =~= self.contents());
                    }
                    Entry::Vacant(Vacant::Absent { present })
                },
            },
        }
    }

    fn vacant_entry_key(va: &Vacant<K, V, S>) -> (k: Option<K>) {
        match va {
            Vacant::Absent { .. } => None,
            Vacant::Present { entry, .. } => Some(S::vacant_entry_key(entry)),
        }
    }

    fn vacant_insert(va: Vacant<K, V, S>, value: V) -> (s: Self) {
        match va {
            Vacant::Absent { present } => {
                let s = OptionMapStorage {
                    present,
                    absent: Some(value),
                    marker: core::marker::PhantomData,
                };
                proof {
                    s.present.lemma_inv();
                    lemma_compose_dom(s.present.contents(), Some(value));
                    lemma_compose_dom(s.present.contents(), None::<V>);
                    assert(s.contents() =~= Self::vacant_rest(va).insert(None, value));
                }
                s
            },
            Vacant::Present { entry, absent } => {
                proof {
                    S::lemma_vacant_wf(entry);
                    lemma_compose_dom(S::vacant_rest(entry), absent);
                }
                let ghost k = S::vacant_key(entry);
                let present = S::vacant_insert(entry, value);
                let s = OptionMapStorage { present, absent, marker: core::marker::PhantomData };
                proof {
                    present.lemma_inv();
                    assert(s.contents() =~= Self::vacant_rest(va).insert(Some(k), value));
                }
                s
            },
        }
    }

    fn vacant_into_storage(va: Vacant<K, V, S>) -> (s: Self) {
        match va {
            Vacant::Absent { present } => {
                let s = OptionMapStorage { present, absent: None, marker: core::marker::PhantomData };
                proof {
                    s.present.lemma_inv();
                    lemma_compose_dom(s.present.contents(), None::<V>);
                    assert(s.contents() =~= Self::vacant_rest(va));
                }
                s
            },
            Vacant::Present { entry, absent } => {
                proof {
                    S::lemma_vacant_wf(entry);
                }
                let present = S::vacant_into_storage(entry);
                let s = OptionMapStorage { present, absent, marker: core::marker::PhantomData };
                proof {
                    assert(s.contents() =~= Self::vacant_rest(va));
                }
                s
            },
        }
    }

    fn occupied_entry_key(oc: &Occupied<K, V, S>) -> (k: Option<K>) {
        match oc {
            Occupied::Absent { .. } => None,
            Occupied::Present { entry, .. } => Some(S::occupied_entry_key(entry)),
        }
    }

    fn occupied_get(oc: &Occupied<K, V, S>) -> (v: &V) {
        match oc {
            Occupied::Absent { value, .. } => {
                proof {
                    assert(Self::occupied_contents(*oc).dom().contains(None::<K>));
                    assert(Self::occupied_contents(*oc)[None] == *value);
                }
                value
            },
            Occupied::Present { entry, .. } => {
                proof {
                    S::lemma_occupied_wf(*entry);
                    let ik = S::occupied_key(*entry);
                    assert(Self::occupied_contents(*oc).dom().contains(Some(ik)));
                    assert(Self::occupied_contents(*oc)[Some(ik)] == S::occupied_contents(
                        *entry,
                    )[ik]);
                }
                S::occupied_get(entry)
            },
        }
    }

    fn occupied_get_mut(oc: &mut Occupied<K, V, S>) -> (v: &mut V) {
        let ghost ooc = *old(oc);
        match oc {
            Occupied::Absent { value, .. } => {
                proof {
                    match ooc {
                        Occupied::Absent { present: gp, value: gv } => {
                            assert(Self::occupied_contents(ooc).dom().contains(None::<K>));
                            assert(Self::occupied_contents(ooc)[None] == gv);
                            assert(Self::occupied_key(ooc) == None::<K>);
                            assert(*value == gv);
                            assert forall|w: V| true implies #[trigger] compose_contents(
                                gp.contents(),
                                Some(w),
                            ) == Self::occupied_contents(ooc).insert(None, w) by {
                                assert(compose_contents(gp.contents(), Some(w))
                                    =~= Self::occupied_contents(ooc).insert(None, w));
                            }
                        },
                        Occupied::Present { .. } => {
                            assert(false);
                        },
                    }
                }
                value
            },
            Occupied::Present { entry, .. } => {
                proof {
                    match ooc {
                        Occupied::Present { entry: ge, absent: ga } => {
                            S::lemma_occupied_wf(ge);
                            lemma_compose_dom(S::occupied_contents(ge), ga);
                            let ik = S::occupied_key(ge);
                            assert(Self::occupied_contents(ooc).dom().contains(Some(ik)));
                            assert(Self::occupied_contents(ooc)[Some(ik)]
                                == S::occupied_contents(ge)[ik]);
                            assert forall|w: V|
                                #![trigger S::occupied_contents(ge).insert(ik, w)]
                                true implies S::occupied_contents(ge).insert(ik, w).dom().len()
                                == S::occupied_contents(ge).dom().len() by {
                                broadcast use vstd::set::group_set_axioms;

                                assert(S::occupied_contents(ge).insert(ik, w).dom()
                                    =~= S::occupied_contents(ge).dom());
                            }
                            assert forall|m: Map<K, V>, w: V|
                                #![trigger compose_contents(m, ga), Self::occupied_contents(ooc).insert(Self::occupied_key(ooc), w)]
                                m == S::occupied_contents(ge).insert(
                                    S::occupied_key(ge),
                                    w,
                                ) implies compose_contents(m, ga) == Self::occupied_contents(
                                ooc,
                            ).insert(Self::occupied_key(ooc), w) && m.dom().len()
                                == S::occupied_contents(ge).dom().len() by {
                                assert(compose_contents(m, ga) =~= Self::occupied_contents(
                                    ooc,
                                ).insert(Self::occupied_key(ooc), w));
                                S::lemma_occupied_wf(ge);
                                assert(m.dom() =~= S::occupied_contents(ge).dom());
                            }
                        },
                        Occupied::Absent { .. } => {
                            assert(false);
                        },
                    }
                }
                S::occupied_get_mut(entry)
            },
        }
    }

    fn occupied_insert(oc: &mut Occupied<K, V, S>, value: V) -> (prev: V) {
        let v = Self::occupied_get_mut(oc);
        let mut value = value;
        core::mem::swap(v, &mut value);
        value
    }

    fn occupied_remove(oc: Occupied<K, V, S>) -> (r: (V, Self)) {
        match oc {
            Occupied::Absent { present, value } => {
                let s = OptionMapStorage { present, absent: None, marker: core::marker::PhantomData };
                proof {
                    s.present.lemma_inv();
                    lemma_compose_dom(s.present.contents(), None::<V>);
                    lemma_compose_dom(s.present.contents(), Some(value));
                    assert(s.contents() =~= Self::occupied_contents(oc).remove(None));
                }
                (value, s)
            },
            Occupied::Present { entry, absent } => {
                proof {
                    S::lemma_occupied_wf(entry);
                }
                let ghost k = S::occupied_key(entry);
                let (v, present) = S::occupied_remove(entry);
                let s = OptionMapStorage { present, absent, marker: core::marker::PhantomData };
                proof {
                    present.lemma_inv();
                    assert(s.contents() =~= Self::occupied_contents(oc).remove(Some(k)));
                }
                (v, s)
            },
        }
    }

    fn occupied_into_storage(oc: Occupied<K, V, S>) -> (s: Self) {
        match oc {
            Occupied::Absent { present, value } => {
                let s = OptionMapStorage {
                    present,
                    absent: Some(value),
                    marker: core::marker::PhantomData,
                };
                proof {
                    s.present.lemma_inv();
                    lemma_compose_dom(s.present.contents(), Some(value));
                    assert(s.contents() =~= Self::occupied_contents(oc));
                }
                s
            },
            Occupied::Present { entry, absent } => {
                proof {
                    S::lemma_occupied_wf(entry);
                }
                let present = S::occupied_into_storage(entry);
                let s = OptionMapStorage { present, absent, marker: core::marker::PhantomData };
                proof {
                    assert(s.contents() =~= Self::occupied_contents(oc));
                }
                s
            },
        }
    }
}

} // verus!
