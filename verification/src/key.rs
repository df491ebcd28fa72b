//! The contract a finite-enumeration key type must satisfy to be stored
//! without hashing.

use vstd::prelude::*;

verus! {

/// A key type whose domain is a finite enumeration with a declared, stable
/// variant order.
///
/// Every implementation supplies a total, injective mapping from keys to the
/// index space `0 .. card()`, fixed at definition time. Direct storage uses
/// the index to address one slot per variant, so lookups never hash.
pub trait EnumKey: Sized + Copy {
    /// The number of declared variants.
    spec fn card() -> nat;

    /// The declared position of this variant.
    spec fn index(self) -> nat;

    /// Every key's index lies below the variant count: the mapping is total.
    proof fn lemma_index_bound(self)
        ensures
            self.index() < Self::card(),
    ;

    /// Two keys with the same index are the same key: the mapping is
    /// injective.
    proof fn lemma_index_injective(a: Self, b: Self)
        requires
            a.index() == b.index(),
        ensures
            a == b,
    ;

    /// Every position below the variant count is some key's index: the
    /// mapping is onto its index space.
    proof fn lemma_index_onto(i: nat)
        requires
            i < Self::card(),
        ensures
            exists|k: Self| #[trigger] k.index() == i,
    ;

    /// The variant count, as a machine integer.
    fn count() -> (n: usize)
        ensures
            n == Self::card(),
    ;

    /// The declared position of this variant, as a machine integer.
    fn to_index(self) -> (i: usize)
        ensures
            i == self.index(),
    ;

    /// The variant declared at position `i`.
    fn from_index(i: usize) -> (k: Self)
        requires
            i < Self::card(),
        ensures
            k.index() == i,
    ;
}

/// The key declared at position `i`, as a specification value.
///
/// Well defined for `i < K::card()` by `lemma_index_onto` and
/// `lemma_index_injective`.
pub open spec fn key_at<K: EnumKey>(i: nat) -> K {
    choose|k: K| k.index() == i
}

/// A small enumeration used by this crate's own tests and examples: a card
/// suit, with the four variants declared in the order Spade, Heart, Diamond,
/// Club.
#[derive(Clone, Copy, Debug, PartialEq, Eq, Structural)]
pub enum Suit {
    Spade,
    Heart,
    Diamond,
    Club,
}

impl EnumKey for Suit {
    open spec fn card() -> nat {
        4
    }

    open spec fn index(self) -> nat {
        match self {
            Suit::Spade => 0,
            Suit::Heart => 1,
            Suit::Diamond => 2,
            Suit::Club => 3,
        }
    }

    proof fn lemma_index_bound(self) {
    }

    proof fn lemma_index_injective(a: Self, b: Self) {
    }

    proof fn lemma_index_onto(i: nat) {
        if i == 0 {
            assert(Suit::Spade.index() == i);
        } else if i == 1 {
            assert(Suit::Heart.index() == i);
        } else if i == 2 {
            assert(Suit::Diamond.index() == i);
        } else {
            assert(Suit::Club.index() == i);
        }
    }

    fn count() -> usize {
        4
    }

    fn to_index(self) -> usize {
        match self {
            Suit::Spade => 0,
            Suit::Heart => 1,
            Suit::Diamond => 2,
            Suit::Club => 3,
        }
    }

    fn from_index(i: usize) -> Suit {
        if i == 0 {
            Suit::Spade
        } else if i == 1 {
            Suit::Heart
        } else if i == 2 {
            Suit::Diamond
        } else {
            Suit::Club
        }
    }
}

impl Default for Suit {
    /// The default key is the first declared variant.
    fn default() -> (k: Suit)
        ensures
            k == Suit::Spade,
            k.index() == 0,
    {
        Suit::Spade
    }
}

} // verus!
