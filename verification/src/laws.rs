//! Laws every storage strategy obeys, stated over the contents model that
//! the strategies' contracts speak of, and order laws of the individual
//! strategies.

use vstd::prelude::*;
use crate::key::{key_at, EnumKey};
use crate::direct::{lemma_key_at_index, lemma_order_prefix_props, lemma_order_prefix_same_presence, DirectMapStorage};
use crate::option_map::OptionMapStorage;
use crate::singleton::{lemma_unit_map, UnitKey};
use crate::storage::MapStorage;

verus! {

/// Law: storing a value and then looking its key up yields exactly that
/// value; removing the key afterwards yields it again, and a lookup after
/// that finds nothing.
///
/// Every strategy's `insert`, `get` and `remove` are specified against its
/// `contents()` map by exactly these transitions, so the law carries over to
/// any sequence of strategy calls.
pub proof fn lemma_insert_get_remove_round_trip<K, V>(m: Map<K, V>, k: K, v: V)
    ensures
        m.insert(k, v).dom().contains(k),
        m.insert(k, v)[k] == v,
        m.insert(k, v).remove(k).dom().contains(k) == false,
{
}

/// Law: removing a key twice in a row gives the stored value and then
/// absence: after the first removal the key is gone, and the second removal
/// finds nothing and changes nothing.
pub proof fn lemma_remove_twice<K, V>(m: Map<K, V>, k: K)
    ensures
        !m.remove(k).dom().contains(k),
        m.remove(k).remove(k) == m.remove(k),
{
    assert(m.remove(k).remove(k) =~= m.remove(k));
}

/// Law: a direct storage iterates in declaration order — its keys come out
/// sorted by declared position, each exactly once, covering exactly the
/// stored keys.
pub proof fn lemma_direct_order_declaration<K: EnumKey, V>(s: DirectMapStorage<K, V>)
    requires
        s.inv(),
    ensures
        s.order().no_duplicates(),
        s.order().to_set() == s.contents().dom(),
        forall|j1: int, j2: int|
            0 <= j1 < j2 < s.order().len() ==> (#[trigger] s.order()[j1]).index() < (
            #[trigger] s.order()[j2]).index(),
{
    s.lemma_inv();
    lemma_order_prefix_props::<K, V>(s.slots@, K::card() as int);
}

/// Law: a direct storage's iteration order is a function of its contents
/// alone — two direct storages holding the same pairs iterate identically,
/// whatever order the pairs were inserted in.
pub proof fn lemma_direct_order_of_contents<K: EnumKey, V>(
    a: DirectMapStorage<K, V>,
    b: DirectMapStorage<K, V>,
)
    requires
        a.inv(),
        b.inv(),
        a.contents() == b.contents(),
    ensures
        a.order() == b.order(),
{
    assert forall|i: int| 0 <= i < K::card() implies (a.slots@[i] is Some <==> b.slots@[i]
        is Some) by {
        lemma_key_at_index::<K>(i as nat);
        let k = key_at::<K>(i as nat);
        assert(a.contents().dom().contains(k) == b.contents().dom().contains(k));
        assert(a.contents().dom().contains(k) <==> a.slots@[i] is Some);
        assert(b.contents().dom().contains(k) <==> b.slots@[i] is Some);
    }
    lemma_order_prefix_same_presence::<K, V>(a.slots@, b.slots@, K::card() as int);
}

/// Law: an optional-key composition iterates the present branch first, in
/// the inner strategy's own order, and the absent entry last; its size is
/// the inner size plus one exactly when the absent slot is occupied.
pub proof fn lemma_option_order_absent_last<K: Copy, V, S: MapStorage<K, V>>(
    s: OptionMapStorage<K, V, S>,
)
    requires
        s.inv(),
    ensures
        s.order().len() == s.present.order().len() + (if s.absent is Some {
            1int
        } else {
            0int
        }),
        forall|j: int|
            0 <= j < s.present.order().len() ==> (#[trigger] s.order()[j]) == Some(
                s.present.order()[j],
            ),
        s.absent is Some ==> s.order()[s.order().len() - 1] == None::<K>,
        s.contents().dom().len() == s.present.contents().dom().len() + (if s.absent is Some {
            1int
        } else {
            0int
        }),
{
    s.present.lemma_inv();
    crate::option_map::lemma_compose_dom(s.present.contents(), s.absent);
}

/// Law: a singleton storage holds at most one value, and storing twice in a
/// row keeps only the most recent value.
pub proof fn lemma_singleton_latest<V>(a: V, b: V)
    ensures
        Map::<UnitKey, V>::empty().insert(UnitKey, a).insert(UnitKey, b) == Map::<
            UnitKey,
            V,
        >::empty().insert(UnitKey, b),
        Map::<UnitKey, V>::empty().insert(UnitKey, b).dom().len() == 1,
{
    lemma_unit_map(b);
    assert(Map::<UnitKey, V>::empty().insert(UnitKey, a).insert(UnitKey, b) =~= Map::<
        UnitKey,
        V,
    >::empty().insert(UnitKey, b));
}

} // verus!
