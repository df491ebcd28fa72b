//! Set storage for optional members: lifts a strategy for `T` into a
//! strategy for `Option<T>` by adding one absent-branch flag beside the
//! inner strategy.

use vstd::prelude::*;
use vstd::relations::injective;
use vstd::seq_lib::lemma_no_dup_in_concat;
use crate::option_map::{compose_order, lemma_some_image_len};
use crate::sets::SetStorage;

verus! {

/// Set storage for `Option<T>` members, for any inner strategy storing `T`.
///
/// Members of the form `Some(t)` live in the inner strategy (the present
/// branch); the member `None` is one dedicated flag (the absent branch).
/// Iteration yields all present-branch members first, in the inner
/// strategy's order, then `None` last, if present.
pub struct OptionSetStorage<T: Copy, S: SetStorage<T>> {
    /// The inner strategy holding the `Some(_)` members.
    pub present: S,
    /// Whether the member `None` is stored.
    pub absent: bool,
    /// Ties the struct to the inner strategy's member type.
    pub marker: core::marker::PhantomData<T>,
}

/// The model of an optional-member set: the inner members wrapped in
/// `Some`, plus `None` when the absent flag is set.
pub open spec fn compose_members<T>(inner: Set<T>, absent: bool) -> Set<Option<T>> {
    Set::new(
        |x: Option<T>|
            match x {
                Some(t) => inner.contains(t),
                None => absent,
            },
    )
}

/// The composed member set is the inner set wrapped in `Some`, plus `None`
/// when the absent flag is set; its size is the inner size plus at most one.
pub proof fn lemma_compose_members<T>(inner: Set<T>, absent: bool)
    requires
        inner.finite(),
    ensures
        compose_members(inner, absent).finite(),
        compose_members(inner, absent).len() == inner.len() + (if absent {
            1int
        } else {
            0int
        }),
        forall|t: T| #[trigger] compose_members(inner, absent).contains(Some(t)) <==> inner.contains(t),
        compose_members(inner, absent).contains(None::<T>) <==> absent,
{
    broadcast use vstd::set::group_set_axioms;

    let f = |t: T| Some(t);
    lemma_some_image_len(inner);
    let base = inner.map(f);
    assert(!base.contains(None)) by {
        if base.contains(None::<T>) {
            let y = choose|y: T| inner.contains(y) && f(y) == None::<T>;
        }
    }
    assert(base =~= compose_members(inner, false)) by {
        assert forall|x: Option<T>| #[trigger] base.contains(x) implies compose_members(
            inner,
            false,
        ).contains(x) by {
            let y = choose|y: T| inner.contains(y) && f(y) == x;
        }
        assert forall|x: Option<T>| #[trigger]
            compose_members(inner, false).contains(x) implies base.contains(x) by {
            match x {
                Some(t) => {
                    assert(inner.contains(t) && f(t) == x);
                },
                None => {},
            }
        }
    }
    if absent {
        assert(compose_members(inner, absent) =~= base.insert(None));
    } else {
        assert(compose_members(inner, absent) =~= base);
    }
}

impl<T: Copy, S: SetStorage<T>> OptionSetStorage<T, S> {
    /// The composed order covers the composed members exactly once, and the
    /// composed size is the inner size plus one when the absent flag is set.
    proof fn lemma_model(&self)
        requires
            self.present.inv(),
        ensures
            self.contents().finite(),
            self.order().no_duplicates(),
            self.order().to_set() == self.contents(),
            self.order().len() == self.contents().len(),
            self.contents().len() == self.present.contents().len() + (if self.absent {
                1int
            } else {
                0int
            }),
    {
        let f = |t: T| Some(t);
        self.present.lemma_inv();
        lemma_compose_members(self.present.contents(), self.absent);
        let iord = self.present.order();
        let mapped = iord.map_values(f);
        let tail: Seq<Option<T>> = if self.absent {
            seq![None::<T>]
        } else {
            Seq::empty()
        };
        assert(injective(f));
        iord.lemma_no_duplicates_injective(f);
        lemma_no_dup_in_concat(mapped, tail);
        assert(self.order().no_duplicates());
        assert(self.order().to_set() =~= self.contents()) by {
            assert forall|x: Option<T>| #[trigger]
                self.order().to_set().contains(x) implies self.contents().contains(x) by {
                assert(self.order().contains(x));
                let j = choose|j: int| 0 <= j < self.order().len() && self.order()[j] == x;
                if j < mapped.len() {
                    assert(iord.contains(iord[j]));
                    assert(self.present.contents().contains(iord[j]));
                }
            }
            assert forall|x: Option<T>| #[trigger]
                self.contents().contains(x) implies self.order().to_set().contains(x) by {
                match x {
                    Some(t) => {
                        assert(self.present.contents().contains(t));
                        assert(iord.to_set().contains(t));
                        assert(iord.contains(t));
                        let j = choose|j: int| 0 <= j < iord.len() && iord[j] == t;
                        assert(self.order()[j] == Some(t));
                        assert(self.order().contains(x));
                    },
                    None => {
                        assert(self.order()[self.order().len() - 1] == None::<T>);
                        assert(self.order().contains(x));
                    },
                }
            }
        }
        self.order().unique_seq_to_set();
    }
}

impl<T: Copy, S: SetStorage<T>> SetStorage<Option<T>> for OptionSetStorage<T, S> {
    open spec fn inv(&self) -> bool {
        &&& self.present.inv()
        &&& self.absent ==> self.present.contents().len() < usize::MAX
    }

    open spec fn contents(&self) -> Set<Option<T>> {
        compose_members(self.present.contents(), self.absent)
    }

    open spec fn order(&self) -> Seq<Option<T>> {
        compose_order(self.present.order(), self.absent)
    }

    proof fn lemma_inv(&self) {
        self.lemma_model();
        self.present.lemma_inv();
    }

    fn empty() -> (s: Self) {
        let s = OptionSetStorage {
            present: S::empty(),
            absent: false,
            marker: core::marker::PhantomData,
        };
        proof {
            s.present.lemma_inv();
            lemma_compose_members(s.present.contents(), s.absent);
            assert forall|x: Option<T>| !(#[trigger] s.contents().contains(x)) by {
                match x {
                    Some(t) => {
                        assert(!s.present.contents().contains(t));
                    },
                    None => {},
                }
            }
            assert(s.contents() =~= Set::<Option<T>>::empty());
            assert(s.order() =~= Seq::<Option<T>>::empty());
        }
        s
    }

    fn len(&self) -> (n: usize) {
        proof {
            self.lemma_model();
        }
        let base = self.present.len();
        if self.absent {
            base + 1
        } else {
            base
        }
    }

    fn is_empty(&self) -> (e: bool) {
        proof {
            self.lemma_model();
            self.present.lemma_inv();
        }
        self.present.is_empty() && !self.absent
    }

    fn insert(&mut self, value: Option<T>) -> (was: bool) {
        proof {
            old(self).lemma_model();
            old(self).present.lemma_inv();
            lemma_compose_members(old(self).present.contents(), old(self).absent);
        }
        match value {
            Some(t) => {
                let was = self.present.insert(t);
                proof {
                    self.present.lemma_inv();
                    assert(self.contents() =~= old(self).contents().insert(value));
                }
                was
            },
            None => {
                let was = self.absent;
                self.absent = true;
                proof {
                    assert(self.contents() =~= old(self).contents().insert(value));
                }
                was
            },
        }
    }

    fn contains(&self, value: Option<T>) -> (b: bool) {
        match value {
            Some(t) => self.present.contains(t),
            None => self.absent,
        }
    }

    fn remove(&mut self, value: Option<T>) -> (was: bool) {
        proof {
            old(self).lemma_model();
            old(self).present.lemma_inv();
            lemma_compose_members(old(self).present.contents(), old(self).absent);
        }
        match value {
            Some(t) => {
                let was = self.present.remove(t);
                proof {
                    self.present.lemma_inv();
                    assert(self.contents() =~= old(self).contents().remove(value));
                }
                was
            },
            None => {
                let was = self.absent;
                self.absent = false;
                proof {
                    assert(self.contents() =~= old(self).contents().remove(value));
                }
                was
            },
        }
    }

    fn retain<F: Fn(Option<T>) -> bool>(&mut self, f: F) {
        proof {
            old(self).lemma_model();
            old(self).present.lemma_inv();
        }
        let ghost old_present = old(self).present.contents();
        let members = self.present.iter();
        proof {
            assert forall|j: int| 0 <= j < members@.len() implies old_present.contains(
                #[trigger] members@[j],
            ) by {
                old(self).present.lemma_inv();
                assert(old(self).present.order().contains(members@[j]));
                assert(old(self).present.order().to_set().contains(members@[j]));
            }
        }
        let mut drop_keys: Vec<T> = Vec::new();
        let mut i: usize = 0;
        while i < members.len()
            invariant
                *self == *old(self),
                old(self).present.inv(),
                forall|x: Option<T>| call_requires(f, (x,)),
                members@ == old(self).present.order(),
                forall|j: int|
                    0 <= j < members@.len() ==> old_present.contains(#[trigger] members@[j]),
                i <= members@.len(),
                forall|j: int|
                    0 <= j < drop_keys@.len() ==> old_present.contains(#[trigger] drop_keys@[j])
                        && call_ensures(f, (Some(drop_keys@[j]),), false),
                forall|j: int|
                    0 <= j < i ==> drop_keys@.contains(#[trigger] members@[j]) || call_ensures(
                        f,
                        (Some(members@[j]),),
                        true,
                    ),
            decreases members@.len() - i,
        {
            let k = members[i];
            proof {
                old(self).present.lemma_inv();
                assert(old(self).present.order().contains(k)) by {
                    assert(old(self).present.order()[i as int] == k);
                }
                assert(old(self).present.order().to_set().contains(k));
                assert(old_present.contains(k));
            }
            let ghost dk0 = drop_keys@;
            if !f(Some(k)) {
                drop_keys.push(k);
                proof {
                    assert(drop_keys@.contains(k)) by {
                        assert(drop_keys@[drop_keys@.len() - 1] == k);
                    }
                    assert forall|j: int| 0 <= j < i + 1 implies drop_keys@.contains(
                        #[trigger] members@[j],
                    ) || call_ensures(f, (Some(members@[j]),), true) by {
                        if j < i && dk0.contains(members@[j]) {
                            let t = choose|t: int| 0 <= t < dk0.len() && dk0[t] == members@[j];
                            assert(drop_keys@[t] == members@[j]);
                        }
                    }
                }
            }
            i += 1;
        }
        proof {
            assert forall|t: T| #[trigger] old_present.contains(t) implies drop_keys@.contains(t)
                || call_ensures(f, (Some(t),), true) by {
                old(self).present.lemma_inv();
                assert(old(self).present.order().to_set().contains(t));
                assert(old(self).present.order().contains(t));
                let j = choose|j: int|
                    0 <= j < old(self).present.order().len() && old(self).present.order()[j] == t;
                assert(members@[j] == t);
            }
        }
        let mut t: usize = 0;
        while t < drop_keys.len()
            invariant
                self.present.inv(),
                self.absent == old(self).absent,
                t <= drop_keys@.len(),
                forall|x: Option<T>| call_requires(f, (x,)),
                forall|j: int|
                    0 <= j < drop_keys@.len() ==> old_present.contains(#[trigger] drop_keys@[j])
                        && call_ensures(f, (Some(drop_keys@[j]),), false),
                forall|tt: T| #[trigger]
                    old_present.contains(tt) ==> drop_keys@.contains(tt) || call_ensures(
                        f,
                        (Some(tt),),
                        true,
                    ),
                forall|tt: T| #[trigger]
                    self.present.contents().contains(tt) ==> old_present.contains(tt),
                forall|tt: T| #[trigger]
                    old_present.contains(tt) ==> self.present.contents().contains(tt)
                        || drop_keys@.take(t as int).contains(tt),
                forall|j: int|
                    0 <= j < t ==> !self.present.contents().contains(#[trigger] drop_keys@[j]),
            decreases drop_keys@.len() - t,
        {
            let k = drop_keys[t];
            self.present.remove(k);
            proof {
                assert forall|tt: T| #[trigger] old_present.contains(tt) implies
                    self.present.contents().contains(tt) || drop_keys@.take(t + 1).contains(
                    tt,
                ) by {
                    if !self.present.contents().contains(tt) {
                        if tt == k {
                            assert(drop_keys@.take(t + 1)[t as int] == k);
                        } else {
                            if drop_keys@.take(t as int).contains(tt) {
                                let j = choose|j: int|
                                    0 <= j < t && drop_keys@.take(t as int)[j] == tt;
                                assert(drop_keys@.take(t + 1)[j] == tt);
                            }
                        }
                    }
                }
            }
            t += 1;
        }
        if self.absent {
            if !f(None) {
                self.absent = false;
            }
        }
        proof {
            self.present.lemma_inv();
            vstd::set_lib::lemma_len_subset(self.present.contents(), old_present);
            lemma_compose_members(old_present, old(self).absent);
            lemma_compose_members(self.present.contents(), self.absent);
            assert forall|x: Option<T>| #[trigger]
                self.contents().contains(x) implies old(self).contents().contains(x) by {}
            assert forall|x: Option<T>| #[trigger]
                old(self).contents().contains(x) implies call_ensures(
                f,
                (x,),
                self.contents().contains(x),
            ) by {
                match x {
                    Some(tt) => {
                        assert(old_present.contains(tt));
                        if drop_keys@.contains(tt) {
                            let jj = choose|jj: int|
                                0 <= jj < drop_keys@.len() && drop_keys@[jj] == tt;
                            assert(!self.present.contents().contains(tt));
                        } else {
                            assert(self.present.contents().contains(tt)) by {
                                assert(drop_keys@.take(drop_keys@.len() as int) =~= drop_keys@);
                            }
                            assert(call_ensures(f, (Some(tt),), true));
                        }
                    },
                    None => {},
                }
            }
        }
    }

    fn clear(&mut self) {
        self.present.clear();
        self.absent = false;
        proof {
            assert(self.contents() =~= Set::<Option<T>>::empty());
            assert(self.order() =~= Seq::<Option<T>>::empty());
        }
    }

    fn iter(&self) -> (r: Vec<Option<T>>) {
        proof {
            self.lemma_model();
            self.present.lemma_inv();
        }
        let members = self.present.iter();
        let mut r: Vec<Option<T>> = Vec::new();
        let mut i: usize = 0;
        while i < members.len()
            invariant
                self.inv(),
                i <= members@.len(),
                members@ == self.present.order(),
                r@.len() == i,
                forall|j: int| 0 <= j < i ==> (#[trigger] r@[j]) == self.order()[j],
            decreases members@.len() - i,
        {
            r.push(Some(members[i]));
            i += 1;
        }
        if self.absent {
            proof {
                assert(self.order()[self.order().len() - 1] == None::<T>);
            }
            r.push(None);
        }
        proof {
            assert(r@ =~= self.order());
        }
        r
    }

    fn into_iter(self) -> (r: Vec<Option<T>>) {
        proof {
            self.lemma_model();
        }
        self.iter()
    }
}

} // verus!
