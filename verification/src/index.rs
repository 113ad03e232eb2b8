//! The ordered maps and sets of the `indexmap` crate.
//!
//! What each collection holds is named here, in order: a sequence of pairs with
//! distinct keys for a map, a sequence of distinct items for a set.

use crate::batch::{BatchCertificate, CertificateModel};
use crate::ids::{Field, RoundEntry, TransmissionKey};
use crate::ordered::{distinct_keys, lookup, set_insert, set_swap_remove, swap_remove, upsert};
use crate::transmission::{Transmission, TransmissionModel};
use indexmap::{IndexMap, IndexSet};
use std::hash::Hash;
use vstd::prelude::*;

verus! {

/// The ordered map of the `indexmap` crate.
#[verifier::external_type_specification]
#[verifier::external_body]
#[verifier::reject_recursive_types(K)]
#[verifier::reject_recursive_types(V)]
#[verifier::reject_recursive_types(S)]
pub struct ExIndexMap<K, V, S>(indexmap::IndexMap<K, V, S>);

/// The ordered set of the `indexmap` crate.
#[verifier::external_type_specification]
#[verifier::external_body]
#[verifier::reject_recursive_types(T)]
#[verifier::reject_recursive_types(S)]
pub struct ExIndexSet<T, S>(indexmap::IndexSet<T, S>);

/// The entries of a round.
#[derive(Debug)]
pub struct RoundEntries {
    pub set: IndexSet<RoundEntry>,
}

/// A transmission, with the IDs of the certificates that declare it.
#[derive(Debug)]
pub struct TransmissionRecord {
    pub transmission: Transmission,
    pub certificate_ids: IndexSet<Field>,
}

/// The items of a set of round entries, in order.
pub uninterp spec fn round_entries_of(set: IndexSet<RoundEntry>) -> Seq<RoundEntry>;

/// The items of a set of certificate IDs, in order.
pub uninterp spec fn certificate_ids_of(set: IndexSet<Field>) -> Seq<Field>;

/// The rounds of a map, each with its entries, in order.
pub uninterp spec fn rounds_of(map: IndexMap<u64, RoundEntries>) -> Seq<(u64, Seq<RoundEntry>)>;

/// The certificates of a map, each under its ID, in order.
pub uninterp spec fn certificates_of(map: IndexMap<Field, BatchCertificate>) -> Seq<(Field, CertificateModel)>;

/// The batch IDs of a map, each with its round, in order.
pub uninterp spec fn batch_ids_of(map: IndexMap<Field, u64>) -> Seq<(Field, u64)>;

/// The transmissions of a map, each with the IDs of its certificates, in order.
pub uninterp spec fn transmissions_of(map: IndexMap<TransmissionKey, TransmissionRecord>) -> Seq<
    (TransmissionKey, (TransmissionModel, Seq<Field>)),
>;

impl View for RoundEntries {
    type V = Seq<RoundEntry>;

    open spec fn view(&self) -> Seq<RoundEntry> {
        round_entries_of(self.set)
    }
}

impl View for TransmissionRecord {
    type V = (TransmissionModel, Seq<Field>);

    open spec fn view(&self) -> (TransmissionModel, Seq<Field>) {
        (self.transmission@, certificate_ids_of(self.certificate_ids))
    }
}

/// What a round and a record hold is what their parts hold.
pub proof fn law_views(entries: RoundEntries, record: TransmissionRecord)
    ensures
        entries@ == round_entries_of(entries.set),
        record@.0 == record.transmission@,
        record@.1 == certificate_ids_of(record.certificate_ids),
{
}

/// An integer, or a tuple of integers: a key whose `==` and hash are those of its parts.
pub trait PlainKey: Hash + Eq {

}

impl PlainKey for u64 {

}

impl PlainKey for (u128, u128) {

}

impl PlainKey for (u8, u128, u128, u128) {

}

impl PlainKey for ((u128, u128), (u128, u128), (u128, u128)) {

}

/// A map whose pairs are named.
pub trait MapEntries<K, M> {
    /// The pairs of the map, in order.
    spec fn entries(&self) -> Seq<(K, M)>;
}

impl MapEntries<u64, Seq<RoundEntry>> for IndexMap<u64, RoundEntries> {
    open spec fn entries(&self) -> Seq<(u64, Seq<RoundEntry>)> {
        rounds_of(*self)
    }
}

impl MapEntries<Field, CertificateModel> for IndexMap<Field, BatchCertificate> {
    open spec fn entries(&self) -> Seq<(Field, CertificateModel)> {
        certificates_of(*self)
    }
}

impl MapEntries<Field, u64> for IndexMap<Field, u64> {
    open spec fn entries(&self) -> Seq<(Field, u64)> {
        batch_ids_of(*self)
    }
}

impl MapEntries<TransmissionKey, (TransmissionModel, Seq<Field>)> for IndexMap<TransmissionKey, TransmissionRecord> {
    open spec fn entries(&self) -> Seq<(TransmissionKey, (TransmissionModel, Seq<Field>))> {
        transmissions_of(*self)
    }
}

/// A set whose items are named.
pub trait SetItems<T> {
    /// The items of the set, in order.
    spec fn items(&self) -> Seq<T>;
}

impl SetItems<RoundEntry> for IndexSet<RoundEntry> {
    open spec fn items(&self) -> Seq<RoundEntry> {
        round_entries_of(*self)
    }
}

impl SetItems<Field> for IndexSet<Field> {
    open spec fn items(&self) -> Seq<Field> {
        certificate_ids_of(*self)
    }
}

/// Calls `IndexSet::new`: the set is empty.
#[verifier::external_body]
pub(crate) fn new_round_entries() -> (r: IndexSet<RoundEntry>)
    ensures
        round_entries_of(r) == Seq::<RoundEntry>::empty(),
{
    IndexSet::new()
}

/// Calls `IndexSet::new`: the set is empty.
#[verifier::external_body]
pub(crate) fn new_certificate_ids() -> (r: IndexSet<Field>)
    ensures
        certificate_ids_of(r) == Seq::<Field>::empty(),
{
    IndexSet::new()
}

/// Calls `IndexMap::new`: the map is empty.
#[verifier::external_body]
pub(crate) fn new_rounds() -> (r: IndexMap<u64, RoundEntries>)
    ensures
        rounds_of(r) == Seq::<(u64, Seq<RoundEntry>)>::empty(),
{
    IndexMap::new()
}

/// Calls `IndexMap::new`: the map is empty.
#[verifier::external_body]
pub(crate) fn new_certificates() -> (r: IndexMap<Field, BatchCertificate>)
    ensures
        certificates_of(r) == Seq::<(Field, CertificateModel)>::empty(),
{
    IndexMap::new()
}

/// Calls `IndexMap::new`: the map is empty.
#[verifier::external_body]
pub(crate) fn new_batch_ids() -> (r: IndexMap<Field, u64>)
    ensures
        batch_ids_of(r) == Seq::<(Field, u64)>::empty(),
{
    IndexMap::new()
}

/// Calls `IndexMap::new`: the map is empty.
#[verifier::external_body]
pub(crate) fn new_transmissions() -> (r: IndexMap<TransmissionKey, TransmissionRecord>)
    ensures
        transmissions_of(r) == Seq::<(TransmissionKey, (TransmissionModel, Seq<Field>))>::empty(),
{
    IndexMap::new()
}

/// Calls `IndexMap::get`: the value of the key, if the key is there.
#[verifier::external_body]
pub(crate) fn map_get<'a, K: PlainKey, V: View>(map: &'a IndexMap<K, V>, key: &K) -> (r: Option<&'a V>) where
    IndexMap<K, V>: MapEntries<K, V::V>,

    ensures
        match r {
            Some(value) => lookup(map.entries(), *key) == Some(value@),
            None => lookup(map.entries(), *key) is None,
        },
{
    map.get(key)
}

/// Calls `IndexMap::get_mut`: the value of the key, if the key is there. What is
/// written through the reference becomes the value of the key, which stays in its
/// place; nothing else changes. No key occurs twice in the map.
#[verifier::external_body]
pub(crate) fn map_get_mut<'a, K: PlainKey, V: View>(map: &'a mut IndexMap<K, V>, key: &K) -> (r: Option<
    &'a mut V,
>) where IndexMap<K, V>: MapEntries<K, V::V>,
    ensures
        distinct_keys(old(map).entries()),
        match r {
            Some(value) => {
                &&& lookup(old(map).entries(), *key) == Some((*value)@)
                &&& final(map).entries() == upsert(old(map).entries(), *key, (*final(value))@)
            },
            None => {
                &&& lookup(old(map).entries(), *key) is None
                &&& final(map).entries() == old(map).entries()
            },
        },
{
    map.get_mut(key)
}

/// Calls `IndexMap::insert`: sets the value of the key, in its place where the key is
/// there, else last. The value that was there before comes back.
#[verifier::external_body]
pub(crate) fn map_insert<K: PlainKey, V: View>(map: &mut IndexMap<K, V>, key: K, value: V) -> (r: Option<V>) where
    IndexMap<K, V>: MapEntries<K, V::V>,

    ensures
        final(map).entries() == upsert(old(map).entries(), key, value@),
        match r {
            Some(before) => lookup(old(map).entries(), key) == Some(before@),
            None => lookup(old(map).entries(), key) is None,
        },
{
    map.insert(key, value)
}

/// Calls `IndexMap::swap_remove`: takes the key out, and moves the last pair into its
/// place. The value that was there comes back.
#[verifier::external_body]
pub(crate) fn map_swap_remove<K: PlainKey, V: View>(map: &mut IndexMap<K, V>, key: &K) -> (r: Option<V>) where
    IndexMap<K, V>: MapEntries<K, V::V>,

    ensures
        final(map).entries() == swap_remove(old(map).entries(), *key),
        match r {
            Some(before) => lookup(old(map).entries(), *key) == Some(before@),
            None => lookup(old(map).entries(), *key) is None,
        },
{
    map.swap_remove(key)
}

/// Calls `IndexMap::iter`: the pairs of the map, in order.
#[verifier::external_body]
pub(crate) fn map_iter<'a, K: PlainKey, V: View>(map: &'a IndexMap<K, V>) -> (r: Vec<(&'a K, &'a V)>) where
    IndexMap<K, V>: MapEntries<K, V::V>,

    ensures
        r.len() == map.entries().len(),
        forall|i: int|
            0 <= i < r.len() ==> *(#[trigger] r@[i]).0 == map.entries()[i].0 && r@[i].1@ == map.entries()[i].1,
{
    map.iter().collect()
}

/// Calls `IndexSet::insert`: puts the item in, last, unless it is there. Tells whether
/// it was not.
#[verifier::external_body]
pub(crate) fn set_put<T: PlainKey>(set: &mut IndexSet<T>, item: T) -> (r: bool) where IndexSet<T>: SetItems<T>,
    ensures
        final(set).items() == set_insert(old(set).items(), item),
        r == !old(set).items().contains(item),
{
    set.insert(item)
}

/// Calls `IndexSet::swap_remove`: takes the item out, and moves the last item into its
/// place. Tells whether it was there.
#[verifier::external_body]
pub(crate) fn set_take<T: PlainKey>(set: &mut IndexSet<T>, item: &T) -> (r: bool) where IndexSet<T>: SetItems<T>,
    ensures
        final(set).items() == set_swap_remove(old(set).items(), *item),
        r == old(set).items().contains(*item),
{
    set.swap_remove(item)
}

/// Calls `IndexSet::is_empty`: whether there is no item.
#[verifier::external_body]
pub(crate) fn set_is_empty<T: PlainKey>(set: &IndexSet<T>) -> (r: bool) where IndexSet<T>: SetItems<T>,
    ensures
        r == (set.items().len() == 0),
{
    set.is_empty()
}

/// Calls `IndexSet::iter`: the items of the set, in order.
#[verifier::external_body]
pub(crate) fn set_iter<'a, T: PlainKey>(set: &'a IndexSet<T>) -> (r: Vec<&'a T>) where IndexSet<T>: SetItems<T>,
    ensures
        r.len() == set.items().len(),
        forall|i: int| 0 <= i < r.len() ==> *(#[trigger] r@[i]) == set.items()[i],
{
    set.iter().collect()
}

} // verus!
