use fixed_map::direct::DirectMapStorage;
use fixed_map::hashed::HashbrownMapStorage;
use fixed_map::key::{EnumKey, Suit};
use fixed_map::option_map::OptionMapStorage;
use fixed_map::shape::Key;
use fixed_map::singleton::{SingletonMapStorage, UnitKey};
use fixed_map::storage::{Entry, MapStorage};

type DM = DirectMapStorage<Suit, i32>;
type OM = OptionMapStorage<Suit, i32, DirectMapStorage<Suit, i32>>;
type HM = HashbrownMapStorage<i32>;
type SM = SingletonMapStorage<i32>;

#[test]
fn direct_round_trip() {
    let mut s: DM = MapStorage::empty();
    assert!(s.is_empty());
    assert_eq!(s.len(), 0);
    assert_eq!(s.insert(Suit::Heart, 10), None);
    assert_eq!(s.len(), 1);
    assert!(!s.is_empty());
    assert_eq!(s.get(Suit::Heart), Some(&10));
    assert!(s.contains_key(Suit::Heart));
    assert_eq!(s.remove(Suit::Heart), Some(10));
    assert_eq!(s.get(Suit::Heart), None);
    assert_eq!(s.len(), 0);
}

#[test]
fn direct_remove_twice() {
    let mut s: DM = MapStorage::empty();
    s.insert(Suit::Club, 7);
    assert_eq!(s.remove(Suit::Club), Some(7));
    assert_eq!(s.remove(Suit::Club), None);
    assert_eq!(s.len(), 0);
}

#[test]
fn direct_declaration_order() {
    // Insert in reverse declaration order; iteration still follows the
    // declared order [Spade, Heart, Diamond, Club].
    let mut s: DM = MapStorage::empty();
    s.insert(Suit::Diamond, 3);
    s.insert(Suit::Spade, 1);
    let pairs: Vec<(Suit, i32)> = s.iter().into_iter().map(|(k, v)| (k, *v)).collect();
    assert_eq!(pairs, vec![(Suit::Spade, 1), (Suit::Diamond, 3)]);
}

#[test]
fn suit_end_to_end() {
    let mut s: DM = MapStorage::empty();
    s.insert(Suit::Heart, 10);
    s.insert(Suit::Club, 20);
    assert_eq!(s.get(Suit::Heart), Some(&10));
    let pairs: Vec<(Suit, i32)> = s.into_iter();
    assert_eq!(pairs, vec![(Suit::Heart, 10), (Suit::Club, 20)]);
}

#[test]
fn direct_overwrite_and_get_mut() {
    let mut s: DM = MapStorage::empty();
    assert_eq!(s.insert(Suit::Spade, 1), None);
    assert_eq!(s.insert(Suit::Spade, 2), Some(1));
    assert_eq!(s.len(), 1);
    *s.get_mut(Suit::Spade) += 40;
    assert_eq!(s.get(Suit::Spade), Some(&42));
}

#[test]
fn direct_keys_values_clear() {
    let mut s: DM = MapStorage::empty();
    s.insert(Suit::Club, 4);
    s.insert(Suit::Heart, 2);
    assert_eq!(s.keys(), vec![Suit::Heart, Suit::Club]);
    let values: Vec<i32> = s.values().into_iter().copied().collect();
    assert_eq!(values, vec![2, 4]);
    s.clear();
    assert!(s.is_empty());
    assert_eq!(s.keys(), Vec::<Suit>::new());
}

#[test]
fn direct_retain_odd() {
    let mut s: DM = MapStorage::empty();
    s.insert(Suit::Spade, 1);
    s.insert(Suit::Heart, 2);
    s.insert(Suit::Diamond, 3);
    s.retain(|_k, v: &i32| *v % 2 == 1);
    assert_eq!(s.len(), 2);
    assert!(s.contains_key(Suit::Spade));
    assert!(!s.contains_key(Suit::Heart));
    assert!(s.contains_key(Suit::Diamond));
}

#[test]
fn direct_entry_lifecycle() {
    let s: DM = MapStorage::empty();
    let s = match s.entry(Suit::Heart) {
        Entry::Vacant(va) => {
            assert_eq!(DM::vacant_entry_key(&va), Suit::Heart);
            DM::vacant_insert(va, 7)
        }
        Entry::Occupied(_) => panic!("entry on an empty strategy must be vacant"),
    };
    match s.entry(Suit::Heart) {
        Entry::Vacant(_) => panic!("entry after insert must be occupied"),
        Entry::Occupied(oc) => {
            assert_eq!(DM::occupied_entry_key(&oc), Suit::Heart);
            assert_eq!(*DM::occupied_get(&oc), 7);
        }
    }
}

#[test]
fn direct_occupied_operations() {
    let mut s: DM = MapStorage::empty();
    s.insert(Suit::Club, 1);
    let s = match s.entry(Suit::Club) {
        Entry::Occupied(mut oc) => {
            assert_eq!(DM::occupied_insert(&mut oc, 5), 1);
            *DM::occupied_get_mut(&mut oc) += 1;
            let (v, rest) = DM::occupied_remove(oc);
            assert_eq!(v, 6);
            rest
        }
        Entry::Vacant(_) => panic!("key must be occupied"),
    };
    assert!(s.is_empty());
}

#[test]
fn singleton_latest() {
    let mut s: SM = MapStorage::empty();
    assert_eq!(s.insert(UnitKey, 1), None);
    assert_eq!(s.insert(UnitKey, 2), Some(1));
    assert_eq!(s.len(), 1);
    assert_eq!(s.get(UnitKey), Some(&2));
}

#[test]
fn singleton_entry_and_retain() {
    let s: SM = MapStorage::empty();
    let mut s = match s.entry(UnitKey) {
        Entry::Vacant(va) => SM::vacant_insert(va, 9),
        Entry::Occupied(_) => panic!("empty singleton must be vacant"),
    };
    assert_eq!(s.iter(), vec![(UnitKey, &9)]);
    s.retain(|_k, v: &i32| *v > 100);
    assert!(s.is_empty());
}

#[test]
fn option_composition_order() {
    // The absent-branch entry is always iterated last.
    let mut s: OM = MapStorage::empty();
    s.insert(None, 1);
    s.insert(Some(Suit::Heart), 2);
    assert_eq!(s.len(), 2);
    let pairs: Vec<(Option<Suit>, i32)> = s.into_iter();
    assert_eq!(pairs, vec![(Some(Suit::Heart), 2), (None, 1)]);
}

#[test]
fn option_composition_round_trip() {
    let mut s: OM = MapStorage::empty();
    assert_eq!(s.insert(None, 5), None);
    assert_eq!(s.insert(None, 6), Some(5));
    assert_eq!(s.get(None), Some(&6));
    assert_eq!(s.get(Some(Suit::Spade)), None);
    s.insert(Some(Suit::Spade), 1);
    *s.get_mut(Some(Suit::Spade)) += 1;
    assert_eq!(s.get(Some(Suit::Spade)), Some(&2));
    assert_eq!(s.remove(None), Some(6));
    assert_eq!(s.remove(None), None);
    assert_eq!(s.len(), 1);
}

#[test]
fn option_entry_both_branches() {
    let s: OM = MapStorage::empty();
    let s = match s.entry(None) {
        Entry::Vacant(va) => {
            assert_eq!(OM::vacant_entry_key(&va), None);
            OM::vacant_insert(va, 1)
        }
        Entry::Occupied(_) => panic!("absent branch must start vacant"),
    };
    let s = match s.entry(Some(Suit::Club)) {
        Entry::Vacant(va) => {
            assert_eq!(OM::vacant_entry_key(&va), Some(Suit::Club));
            OM::vacant_insert(va, 2)
        }
        Entry::Occupied(_) => panic!("present branch must start vacant"),
    };
    let s = match s.entry(None) {
        Entry::Occupied(mut oc) => {
            assert_eq!(OM::occupied_entry_key(&oc), None);
            assert_eq!(*OM::occupied_get(&oc), 1);
            assert_eq!(OM::occupied_insert(&mut oc, 3), 1);
            OM::occupied_into_storage(oc)
        }
        Entry::Vacant(_) => panic!("absent branch must now be occupied"),
    };
    let (v, s) = match s.entry(Some(Suit::Club)) {
        Entry::Occupied(oc) => OM::occupied_remove(oc),
        Entry::Vacant(_) => panic!("present branch must now be occupied"),
    };
    assert_eq!(v, 2);
    assert_eq!(s.len(), 1);
    assert_eq!(s.get(None), Some(&3));
}

#[test]
fn option_retain() {
    let mut s: OM = MapStorage::empty();
    s.insert(Some(Suit::Spade), 1);
    s.insert(Some(Suit::Heart), 2);
    s.insert(None, 3);
    s.retain(|_k, v: &i32| *v % 2 == 1);
    assert_eq!(s.len(), 2);
    assert_eq!(s.get(Some(Suit::Spade)), Some(&1));
    assert_eq!(s.get(Some(Suit::Heart)), None);
    assert_eq!(s.get(None), Some(&3));
}

#[test]
fn hash_round_trip() {
    let mut s: HM = MapStorage::empty();
    assert!(s.is_empty());
    assert_eq!(s.insert(1, 10), None);
    assert_eq!(s.insert(2, 20), None);
    assert_eq!(s.insert(1, 11), Some(10));
    assert_eq!(s.len(), 2);
    assert_eq!(s.get(1), Some(&11));
    assert_eq!(s.get(3), None);
    assert!(s.contains_key(2));
    assert!(!s.contains_key(3));
    assert_eq!(s.remove(2), Some(20));
    assert_eq!(s.remove(2), None);
    assert_eq!(s.len(), 1);
}

#[test]
fn hash_get_mut_writes_through() {
    let mut s: HM = MapStorage::empty();
    s.insert(5, 1);
    *s.get_mut(5) = 99;
    assert_eq!(s.get(5), Some(&99));
}

#[test]
fn hash_iteration_covers_contents() {
    let mut s: HM = MapStorage::empty();
    for k in 0..10u64 {
        s.insert(k, (k as i32) * 2);
    }
    let mut pairs: Vec<(u64, i32)> = s.iter().into_iter().map(|(k, v)| (k, *v)).collect();
    pairs.sort();
    let expected: Vec<(u64, i32)> = (0..10u64).map(|k| (k, (k as i32) * 2)).collect();
    assert_eq!(pairs, expected);
    let mut keys = s.keys();
    keys.sort();
    assert_eq!(keys, (0..10u64).collect::<Vec<u64>>());
    let mut owned: Vec<(u64, i32)> = s.into_iter();
    owned.sort();
    assert_eq!(owned, expected);
}

#[test]
fn hash_retain_and_clear() {
    let mut s: HM = MapStorage::empty();
    for k in 0..10u64 {
        s.insert(k, k as i32);
    }
    s.retain(|k, _v: &i32| k % 3 == 0);
    assert_eq!(s.len(), 4);
    assert!(s.contains_key(9));
    assert!(!s.contains_key(4));
    s.clear();
    assert!(s.is_empty());
    assert_eq!(s.iter().len(), 0);
}

#[test]
fn hash_entry_lifecycle() {
    let s: HM = MapStorage::empty();
    let s = match s.entry(42) {
        Entry::Vacant(va) => {
            assert_eq!(HM::vacant_entry_key(&va), 42);
            HM::vacant_insert(va, 7)
        }
        Entry::Occupied(_) => panic!("entry on an empty strategy must be vacant"),
    };
    let s = match s.entry(42) {
        Entry::Occupied(mut oc) => {
            assert_eq!(*HM::occupied_get(&oc), 7);
            assert_eq!(HM::occupied_insert(&mut oc, 8), 7);
            *HM::occupied_get_mut(&mut oc) += 1;
            let (v, rest) = HM::occupied_remove(oc);
            assert_eq!(v, 9);
            rest
        }
        Entry::Vacant(_) => panic!("entry after insert must be occupied"),
    };
    assert!(s.is_empty());
}

#[test]
fn is_empty_matches_len_across_strategies() {
    let mut d: DM = MapStorage::empty();
    assert_eq!(d.is_empty(), d.len() == 0);
    d.insert(Suit::Spade, 1);
    assert_eq!(d.is_empty(), d.len() == 0);

    let mut h: HM = MapStorage::empty();
    assert_eq!(h.is_empty(), h.len() == 0);
    h.insert(3, 3);
    assert_eq!(h.is_empty(), h.len() == 0);

    let mut o: OM = MapStorage::empty();
    o.insert(None, 1);
    assert_eq!(o.is_empty(), o.len() == 0);
    o.remove(None);
    assert_eq!(o.is_empty(), o.len() == 0);
}

#[test]
fn option_entry_method_surface() {
    let s: OM = MapStorage::empty();
    let s = match s.entry(Some(Suit::Heart)) {
        Entry::Vacant(va) => {
            assert_eq!(va.key(), Some(Suit::Heart));
            va.insert(4)
        }
        Entry::Occupied(_) => panic!("must be vacant"),
    };
    let s = match s.entry(Some(Suit::Heart)) {
        Entry::Occupied(mut oc) => {
            assert_eq!(oc.key(), Some(Suit::Heart));
            assert_eq!(*oc.get(), 4);
            *oc.get_mut() += 1;
            assert_eq!(oc.insert(9), 5);
            let (v, rest) = oc.remove();
            assert_eq!(v, 9);
            rest
        }
        Entry::Vacant(_) => panic!("must be occupied"),
    };
    match s.entry(Some(Suit::Heart)) {
        Entry::Vacant(va) => {
            let s2 = va.into_storage();
            assert!(s2.is_empty());
        }
        Entry::Occupied(_) => panic!("removed key must be vacant"),
    }
}

#[test]
fn key_contract_for_suit() {
    assert_eq!(Suit::count(), 4);
    assert_eq!(Suit::default(), Suit::Spade);
    let all = [Suit::Spade, Suit::Heart, Suit::Diamond, Suit::Club];
    for (i, k) in all.iter().enumerate() {
        assert_eq!(k.to_index(), i);
        assert_eq!(Suit::from_index(i), *k);
    }
}


#[test]
fn shape_binding_selects_strategy() {
    let mut s: <Option<Suit> as Key<i32>>::MapStorage = MapStorage::empty();
    s.insert(None, 1);
    s.insert(Some(Suit::Spade), 2);
    assert_eq!(s.len(), 2);
    let mut u: <fixed_map::singleton::UnitKey as Key<i32>>::MapStorage = MapStorage::empty();
    u.insert(UnitKey, 3);
    assert_eq!(u.get(UnitKey), Some(&3));
    let mut h: <u64 as Key<i32>>::MapStorage = MapStorage::empty();
    h.insert(7, 70);
    assert_eq!(h.get(7), Some(&70));
}

#[test]
fn option_keys_and_values() {
    let mut s: OM = MapStorage::empty();
    s.insert(Some(Suit::Diamond), 30);
    s.insert(None, 1);
    s.insert(Some(Suit::Spade), 10);
    assert_eq!(s.keys(), vec![Some(Suit::Spade), Some(Suit::Diamond), None]);
    let values: Vec<i32> = s.values().into_iter().copied().collect();
    assert_eq!(values, vec![10, 30, 1]);
    s.clear();
    assert_eq!(s.keys(), Vec::<Option<Suit>>::new());
}

#[test]
fn nested_optional_keys_compose() {
    let mut s: <Option<Option<Suit>> as Key<i32>>::MapStorage = MapStorage::empty();
    s.insert(None, 1);
    s.insert(Some(None), 2);
    s.insert(Some(Some(Suit::Heart)), 3);
    assert_eq!(s.len(), 3);
    assert_eq!(s.get(None), Some(&1));
    assert_eq!(s.get(Some(None)), Some(&2));
    assert_eq!(s.get(Some(Some(Suit::Heart))), Some(&3));
    let pairs: Vec<(Option<Option<Suit>>, i32)> = s.into_iter();
    assert_eq!(
        pairs,
        vec![(Some(Some(Suit::Heart)), 3), (Some(None), 2), (None, 1)]
    );
}

#[test]
fn singleton_into_iter_and_values() {
    let s: SM = MapStorage::empty();
    assert_eq!(s.into_iter(), Vec::<(UnitKey, i32)>::new());
    let mut s2: SM = MapStorage::empty();
    s2.insert(UnitKey, 5);
    let values: Vec<i32> = s2.values().into_iter().copied().collect();
    assert_eq!(values, vec![5]);
    assert_eq!(s2.keys(), vec![UnitKey]);
    assert_eq!(s2.into_iter(), vec![(UnitKey, 5)]);
}
