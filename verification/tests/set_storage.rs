use fixed_map::key::Suit;
use fixed_map::option_set::OptionSetStorage;
use fixed_map::sets::{DirectSetStorage, SetStorage};

type DS = DirectSetStorage<Suit>;
type OS = OptionSetStorage<Suit, DirectSetStorage<Suit>>;

#[test]
fn direct_set_round_trip() {
    let mut s: DS = SetStorage::empty();
    assert!(s.is_empty());
    assert_eq!(s.insert(Suit::Heart), false);
    assert_eq!(s.insert(Suit::Heart), true);
    assert_eq!(s.len(), 1);
    assert!(s.contains(Suit::Heart));
    assert!(!s.contains(Suit::Spade));
    assert_eq!(s.remove(Suit::Heart), true);
    assert_eq!(s.remove(Suit::Heart), false);
    assert!(s.is_empty());
}

#[test]
fn direct_set_declaration_order() {
    let mut s: DS = SetStorage::empty();
    s.insert(Suit::Club);
    s.insert(Suit::Spade);
    s.insert(Suit::Diamond);
    assert_eq!(s.iter(), vec![Suit::Spade, Suit::Diamond, Suit::Club]);
}

#[test]
fn direct_set_retain_and_clear() {
    let mut s: DS = SetStorage::empty();
    s.insert(Suit::Spade);
    s.insert(Suit::Heart);
    s.insert(Suit::Club);
    s.retain(|k| k != Suit::Heart);
    assert_eq!(s.iter(), vec![Suit::Spade, Suit::Club]);
    s.clear();
    assert_eq!(s.len(), 0);
    assert_eq!(s.iter(), Vec::<Suit>::new());
}

#[test]
fn option_set_absent_last() {
    let mut s: OS = SetStorage::empty();
    assert_eq!(s.insert(None), false);
    assert_eq!(s.insert(Some(Suit::Heart)), false);
    assert_eq!(s.insert(None), true);
    assert_eq!(s.len(), 2);
    assert_eq!(s.iter(), vec![Some(Suit::Heart), None]);
    assert_eq!(s.into_iter(), vec![Some(Suit::Heart), None]);
}

#[test]
fn option_set_only_absent_is_not_empty() {
    let mut s: OS = SetStorage::empty();
    assert!(s.is_empty());
    s.insert(None);
    assert!(!s.is_empty());
    assert_eq!(s.len(), 1);
    assert_eq!(s.remove(None), true);
    assert!(s.is_empty());
}

#[test]
fn option_set_retain() {
    let mut s: OS = SetStorage::empty();
    s.insert(Some(Suit::Spade));
    s.insert(Some(Suit::Club));
    s.insert(None);
    s.retain(|x| x != Some(Suit::Club));
    assert_eq!(s.iter(), vec![Some(Suit::Spade), None]);
    s.retain(|x| x.is_some());
    assert_eq!(s.iter(), vec![Some(Suit::Spade)]);
}

#[test]
fn option_set_contains() {
    let mut s: OS = SetStorage::empty();
    s.insert(Some(Suit::Diamond));
    assert!(s.contains(Some(Suit::Diamond)));
    assert!(!s.contains(Some(Suit::Spade)));
    assert!(!s.contains(None));
    s.insert(None);
    assert!(s.contains(None));
}
