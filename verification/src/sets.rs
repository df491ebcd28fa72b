//! The capability contract shared by every set storage strategy, and the
//! strategy for finite-enumeration members.

use vstd::prelude::*;
use crate::key::EnumKey;
use crate::storage::MapStorage;
use crate::direct::DirectMapStorage;

verus! {

/// The capability contract every set storage strategy satisfies.
///
/// A strategy owns a finite set of members, its `contents()`; `order()`
/// lists them in the strategy's iteration order, covering them exactly once.
/// `insert` and `remove` report the member's previous presence.
pub trait SetStorage<T: Copy>: Sized {
    /// The strategy's internal well-formedness condition.
    spec fn inv(&self) -> bool;

    /// The members currently stored.
    spec fn contents(&self) -> Set<T>;

    /// The members in iteration order.
    spec fn order(&self) -> Seq<T>;

    /// A valid strategy's contents are finite and sized for the machine, and
    /// its iteration order covers each member exactly once.
    proof fn lemma_inv(&self)
        requires
            self.inv(),
        ensures
            self.contents().finite(),
            self.contents().len() <= usize::MAX,
            self.order().no_duplicates(),
            self.order().to_set() == self.contents(),
            self.order().len() == self.contents().len(),
    ;

    /// A strategy holding nothing.
    fn empty() -> (s: Self)
        ensures
            s.inv(),
            s.contents() == Set::<T>::empty(),
            s.order() == Seq::<T>::empty(),
    ;

    /// The count of stored members.
    fn len(&self) -> (n: usize)
        requires
            self.inv(),
        ensures
            n == self.contents().len(),
    ;

    /// Whether no member is stored; equivalent to `len() == 0`.
    fn is_empty(&self) -> (e: bool)
        requires
            self.inv(),
        ensures
            e <==> self.contents().len() == 0,
    ;

    /// Store `value`, reporting whether it was already present.
    fn insert(&mut self, value: T) -> (was: bool)
        requires
            old(self).inv(),
            old(self).contents().len() < usize::MAX,
        ensures
            final(self).inv(),
            final(self).contents() == old(self).contents().insert(value),
            was == old(self).contents().contains(value),
    ;

    /// Whether `value` is stored.
    fn contains(&self, value: T) -> (b: bool)
        requires
            self.inv(),
        ensures
            b == self.contents().contains(value),
    ;

    /// Remove `value`, reporting whether it was present.
    fn remove(&mut self, value: T) -> (was: bool)
        requires
            old(self).inv(),
        ensures
            final(self).inv(),
            final(self).contents() == old(self).contents().remove(value),
            was == old(self).contents().contains(value),
    ;

    /// Keep exactly the members the predicate approves.
    fn retain<F: Fn(T) -> bool>(&mut self, f: F)
        requires
            old(self).inv(),
            forall|t: T| call_requires(f, (t,)),
        ensures
            final(self).inv(),
            forall|t: T| #[trigger]
                final(self).contents().contains(t) ==> old(self).contents().contains(t),
            forall|t: T| #[trigger]
                old(self).contents().contains(t) ==> call_ensures(
                    f,
                    (t,),
                    final(self).contents().contains(t),
                ),
    ;

    /// Remove every member.
    fn clear(&mut self)
        requires
            old(self).inv(),
        ensures
            final(self).inv(),
            final(self).contents() == Set::<T>::empty(),
            final(self).order() == Seq::<T>::empty(),
    ;

    /// The members, in iteration order.
    fn iter(&self) -> (r: Vec<T>)
        requires
            self.inv(),
        ensures
            r@ == self.order(),
    ;

    /// The members, in iteration order. Consumes the storage.
    fn into_iter(self) -> (r: Vec<T>)
        requires
            self.inv(),
        ensures
            r@ == self.order(),
    ;
}

/// Set storage for a finite-enumeration member type: one presence slot per
/// declared variant, held as a direct map storage whose values carry no
/// data. Iteration follows declaration order.
pub struct DirectSetStorage<K: EnumKey> {
    /// One slot per declared variant; a member is present when its slot is.
    pub inner: DirectMapStorage<K, ()>,
}

impl<K: EnumKey> SetStorage<K> for DirectSetStorage<K> {
    open spec fn inv(&self) -> bool {
        self.inner.inv()
    }

    open spec fn contents(&self) -> Set<K> {
        self.inner.contents().dom()
    }

    open spec fn order(&self) -> Seq<K> {
        self.inner.order()
    }

    proof fn lemma_inv(&self) {
        self.inner.lemma_inv();
    }

    fn empty() -> (s: Self) {
        let s = DirectSetStorage { inner: DirectMapStorage::empty() };
        proof {
            assert(s.contents() =~= Set::<K>::empty());
        }
        s
    }

    fn len(&self) -> (n: usize) {
        self.inner.len()
    }

    fn is_empty(&self) -> (e: bool) {
        self.inner.is_empty()
    }

    fn insert(&mut self, value: K) -> (was: bool) {
        let prev = self.inner.insert(value, ());
        proof {
            assert(self.contents() =~= old(self).contents().insert(value));
        }
        prev.is_some()
    }

    fn contains(&self, value: K) -> (b: bool) {
        self.inner.contains_key(value)
    }

    fn remove(&mut self, value: K) -> (was: bool) {
        let prev = self.inner.remove(value);
        proof {
            assert(self.contents() =~= old(self).contents().remove(value));
        }
        prev.is_some()
    }

    fn retain<F: Fn(K) -> bool>(&mut self, f: F) {
        proof {
            old(self).lemma_inv();
        }
        let members = self.inner.keys();
        let mut drop_keys: Vec<K> = Vec::new();
        let mut i: usize = 0;
        while i < members.len()
            invariant
                *self == *old(self),
                old(self).inv(),
                forall|t: K| call_requires(f, (t,)),
                members@ == old(self).order(),
                i <= members@.len(),
                forall|j: int|
                    0 <= j < drop_keys@.len() ==> old(self).contents().contains(
                        #[trigger] drop_keys@[j],
                    ) && call_ensures(f, (drop_keys@[j],), false),
                forall|j: int|
                    0 <= j < i ==> drop_keys@.contains(#[trigger] members@[j]) || call_ensures(
                        f,
                        (members@[j],),
                        true,
                    ),
            decreases members@.len() - i,
        {
            let k = members[i];
            proof {
                old(self).lemma_inv();
                assert(old(self).order().contains(k)) by {
                    assert(old(self).order()[i as int] == k);
                }
            }
            let ghost dk0 = drop_keys@;
            if !f(k) {
                drop_keys.push(k);
                proof {
                    assert(drop_keys@.contains(k)) by {
                        assert(drop_keys@[drop_keys@.len() - 1] == k);
                    }
                    assert forall|j: int| 0 <= j < i + 1 implies drop_keys@.contains(
                        #[trigger] members@[j],
                    ) || call_ensures(f, (members@[j],), true) by {
                        if j < i && dk0.contains(members@[j]) {
                            let t = choose|t: int| 0 <= t < dk0.len() && dk0[t] == members@[j];
                            assert(drop_keys@[t] == members@[j]);
                        }
                    }
                }
            }
            i += 1;
        }
        proof {
            assert forall|t: K| #[trigger] old(self).contents().contains(t) implies drop_keys@.contains(
                t,
            ) || call_ensures(f, (t,), true) by {
                old(self).lemma_inv();
                assert(old(self).order().to_set().contains(t));
                assert(old(self).order().contains(t));
                let j = choose|j: int|
                    0 <= j < old(self).order().len() && old(self).order()[j] == t;
                assert(members@[j] == t);
            }
        }
        let mut t: usize = 0;
        while t < drop_keys.len()
            invariant
                self.inv(),
                t <= drop_keys@.len(),
                forall|j: int|
                    0 <= j < drop_keys@.len() ==> old(self).contents().contains(
                        #[trigger] drop_keys@[j],
                    ) && call_ensures(f, (drop_keys@[j],), false),
                forall|tt: K| #[trigger]
                    old(self).contents().contains(tt) ==> drop_keys@.contains(tt) || call_ensures(
                        f,
                        (tt,),
                        true,
                    ),
                forall|tt: K| #[trigger]
                    self.contents().contains(tt) ==> old(self).contents().contains(tt),
                forall|tt: K| #[trigger]
                    old(self).contents().contains(tt) ==> self.contents().contains(tt)
                        || drop_keys@.take(t as int).contains(tt),
                forall|j: int| 0 <= j < t ==> !self.contents().contains(#[trigger] drop_keys@[j]),
            decreases drop_keys@.len() - t,
        {
            let k = drop_keys[t];
            self.remove(k);
            proof {
                assert forall|tt: K| #[trigger] old(self).contents().contains(tt) implies
                    self.contents().contains(tt) || drop_keys@.take(t + 1).contains(tt) by {
                    if !self.contents().contains(tt) {
                        if tt == k {
                            assert(drop_keys@.take(t + 1)[t as int] == k);
                        } else {
                            if drop_keys@.take(t as int).contains(tt) {
                                let j = choose|j: int|
                                    0 <= j < t && drop_keys@.take(t as int)[j] == tt;
                                assert(drop_keys@.take(t + 1)[j] == tt);
                            }
                        }
                    }
                }
            }
            t += 1;
        }
        proof {
            assert forall|tt: K| #[trigger] old(self).contents().contains(tt) implies call_ensures(
                f,
                (tt,),
                self.contents().contains(tt),
            ) by {
                if drop_keys@.contains(tt) {
                    let jj = choose|jj: int| 0 <= jj < drop_keys@.len() && drop_keys@[jj] == tt;
                    assert(!self.contents().contains(tt));
                } else {
                    assert(self.contents().contains(tt)) by {
                        assert(drop_keys@.take(drop_keys@.len() as int) =~= drop_keys@);
                    }
                }
            }
        }
    }

    fn clear(&mut self) {
        self.inner.clear();
        proof {
            assert(self.contents() =~= Set::<K>::empty());
        }
    }

    fn iter(&self) -> (r: Vec<K>) {
        self.inner.keys()
    }

    fn into_iter(self) -> (r: Vec<K>) {
        self.inner.keys()
    }
}

} // verus!
