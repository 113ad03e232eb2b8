//! The storage for the memory pool.

use crate::batch::{distinct_fields, signature_pairs, BatchCertificate, BatchHeader, CertificateModel};
use crate::collection::{lemma_advance_empty, lemma_same_maps};
use crate::committee::{AddressSet, Committee};
use crate::consistency::{lemma_insert_maps, lemma_remove_maps};
use crate::context::{committee_model, BatchContext, Block};
use crate::error::StorageError;
use crate::ids::{lemma_keys_differ, same_field, Address, Field, RoundEntry, TransmissionID, TransmissionKey};
use crate::index::{map_get, map_get_mut, map_insert, map_iter, map_swap_remove, MapEntries};
use crate::index::{new_batch_ids, new_certificate_ids, new_certificates, new_round_entries};
use crate::index::{new_rounds, new_transmissions, set_is_empty, set_iter, set_put, set_take};
use crate::index::{RoundEntries, SetItems, TransmissionRecord};
use crate::laws::{law_accepted_insert_keeps_sound, law_advance_keeps_sound, law_initial_is_sound};
use crate::laws::{law_insert_keeps_valid, law_remove_keeps_sound};
use crate::model::{add_entry, attach, attach_all, declares, detach, detach_all, drop_entry, entries_of};
use crate::model::{first_outsider, lemma_first_outsider_stays, minus, stored};
use crate::model::{Provided, StorageModel, Transmissions};
use crate::ordered::{distinct, has_key, lemma_lookup_as_map, lemma_swap_remove_upsert, lookup, position};
use crate::ordered::{set_insert, set_swap_remove};
use crate::transmission::{Transmission, TransmissionMap};
use indexmap::{IndexMap, IndexSet};
use vstd::prelude::*;

verus! {

/// What a list of certificates says.
pub open spec fn certificate_models(certificates: Seq<BatchCertificate>) -> Seq<CertificateModel> {
    certificates.map_values(|certificate: BatchCertificate| certificate@)
}

/// The storage for the memory pool.
///
/// The storage is used to store the following:
/// - `current_height` tracker.
/// - `current_round` tracker.
/// - `round` to `(certificate ID, batch ID, author)` entries.
/// - `certificate ID` to `certificate` entries.
/// - `batch ID` to `round` entries.
/// - `transmission ID` to `(transmission, certificate IDs)` entries.
///
/// The chain of events is as follows:
/// 1. A `transmission` is received.
/// 2. After a `batch` is ready to be stored:
///   - The `certificate` is inserted, triggering updates to the
///     `rounds`, `certificates`, `batch_ids`, and `transmissions` maps.
///   - The missing `transmissions` from storage are inserted into the `transmissions` map.
///   - The certificate ID is inserted into the `transmissions` map.
/// 3. After a `round` reaches quorum threshold:
///  - The next round is inserted into the `current_round`.
#[derive(Debug)]
pub struct Storage {
    /// The current height.
    current_height: u32,
    /// The current round.
    current_round: u64,
    /// The `round` for which garbage collection has occurred **up to** (inclusive).
    gc_round: u64,
    /// The maximum number of rounds to keep in storage.
    max_gc_rounds: u64,
    /// The map of `round` to a list of `(certificate ID, batch ID, author)` entries.
    rounds: IndexMap<u64, RoundEntries>,
    /// The map of `certificate ID` to `certificate`.
    certificates: IndexMap<Field, BatchCertificate>,
    /// The map of `batch ID` to `round`.
    batch_ids: IndexMap<Field, u64>,
    /// The map of `transmission ID` to `(transmission, certificate IDs)` entries.
    transmissions: IndexMap<TransmissionKey, TransmissionRecord>,
}

impl View for Storage {
    type V = StorageModel;

    closed spec fn view(&self) -> StorageModel {
        StorageModel {
            current_height: self.current_height,
            current_round: self.current_round,
            gc_round: self.gc_round,
            max_gc_rounds: self.max_gc_rounds,
            rounds: self.rounds.entries(),
            certificates: self.certificates.entries(),
            batch_ids: self.batch_ids.entries(),
            transmissions: self.transmissions.entries(),
        }
    }
}

impl Storage {
    /// Each map is in order, in every state.
    #[verifier::type_invariant]
    pub open spec fn inv(self) -> bool {
        self@.wf()
    }

    /// Returns the current height.
    pub fn current_height(&self) -> (r: u32)
        ensures
            r == self@.current_height,
    {
        self.current_height
    }

    /// Returns the current round.
    pub fn current_round(&self) -> (r: u64)
        ensures
            r == self@.current_round,
    {
        self.current_round
    }

    /// Returns the `round` that garbage collection has occurred **up to** (inclusive).
    pub fn gc_round(&self) -> (r: u64)
        ensures
            r == self@.gc_round,
    {
        self.gc_round
    }

    /// Returns the maximum number of rounds to keep in storage.
    pub fn max_gc_rounds(&self) -> (r: u64)
        ensures
            r == self@.max_gc_rounds,
    {
        self.max_gc_rounds
    }
}

impl Storage {
    /// Returns `true` if the storage contains the specified `round`.
    pub fn contains_certificates_for_round(&self, round: u64) -> (r: bool)
        ensures
            r == has_key(self@.rounds, round),
    {
        map_get(&self.rounds, &round).is_some()
    }

    /// Returns `true` if the storage contains the specified `certificate ID`.
    pub fn contains_certificate(&self, certificate_id: Field) -> (r: bool)
        ensures
            r == has_key(self@.certificates, certificate_id),
    {
        map_get(&self.certificates, &certificate_id).is_some()
    }

    /// Returns `true` if the storage contains a certificate from the specified `author` in the given `round`.
    pub fn contains_certificate_in_round_from(&self, round: u64, author: Address) -> (r: bool)
        ensures
            r == self@.has_author(round, author),
    {
        match map_get(&self.rounds, &round) {
            Some(entries) => {
                let items = set_iter(&entries.set);
                let ghost model = entries_of(self@.rounds, round);
                let mut i: usize = 0;
                while i < items.len()
                    invariant
                        i <= items.len(),
                        items.len() == model.len(),
                        forall|j: int| 0 <= j < items.len() ==> *(#[trigger] items@[j]) == model[j],
                        forall|j: int| 0 <= j < i ==> (#[trigger] model[j]).2 != author,
                        model == entries_of(self@.rounds, round),
                    decreases items.len() - i,
                {
                    let entry: RoundEntry = *items[i];
                    assert(entry == model[i as int]);
                    if same_field(entry.2, author) {
                        return true;
                    }
                    i += 1;
                }
                false
            },
            None => false,
        }
    }

    /// Returns `true` if the storage contains the specified `batch ID`.
    pub fn contains_batch(&self, batch_id: Field) -> (r: bool)
        ensures
            r == has_key(self@.batch_ids, batch_id),
    {
        map_get(&self.batch_ids, &batch_id).is_some()
    }

    /// Returns `true` if the storage contains the specified `transmission ID`.
    pub fn contains_transmission(&self, transmission_id: TransmissionID) -> (r: bool)
        ensures
            r == has_key(self@.transmissions, transmission_id.key()),
    {
        map_get(&self.transmissions, &transmission_id.key()).is_some()
    }

    /// Returns the transmission for the given `transmission ID`.
    /// If the transmission ID does not exist in storage, `None` is returned.
    pub fn get_transmission(&self, transmission_id: TransmissionID) -> (r: Option<Transmission>)
        ensures
            match r {
                Some(transmission) => {
                    &&& lookup(self@.transmissions, transmission_id.key()) is Some
                    &&& lookup(self@.transmissions, transmission_id.key()).unwrap().0 == transmission@
                },
                None => lookup(self@.transmissions, transmission_id.key()) is None,
            },
    {
        match map_get(&self.transmissions, &transmission_id.key()) {
            Some(record) => Some(record.transmission.clone()),
            None => None,
        }
    }

    /// Returns the round for the given `certificate ID`.
    /// If the certificate ID does not exist in storage, `None` is returned.
    pub fn get_round_for_certificate(&self, certificate_id: Field) -> (r: Option<u64>)
        ensures
            r == (match lookup(self@.certificates, certificate_id) {
                Some(certificate) => Some(certificate.header.round),
                None => None,
            }),
    {
        match map_get(&self.certificates, &certificate_id) {
            Some(certificate) => Some(certificate.round()),
            None => None,
        }
    }

    /// Returns the round for the given `batch ID`.
    /// If the batch ID does not exist in storage, `None` is returned.
    pub fn get_round_for_batch(&self, batch_id: Field) -> (r: Option<u64>)
        ensures
            r == lookup(self@.batch_ids, batch_id),
    {
        match map_get(&self.batch_ids, &batch_id) {
            Some(round) => Some(*round),
            None => None,
        }
    }

    /// Returns the certificate round for the given `certificate ID`.
    /// If the certificate ID does not exist in storage, `None` is returned.
    pub fn get_certificate_round(&self, certificate_id: Field) -> (r: Option<u64>)
        ensures
            r == (match lookup(self@.certificates, certificate_id) {
                Some(certificate) => Some(certificate.header.round),
                None => None,
            }),
    {
        match map_get(&self.certificates, &certificate_id) {
            Some(certificate) => Some(certificate.round()),
            None => None,
        }
    }

    /// Returns the certificate for the given `certificate ID`.
    /// If the certificate ID does not exist in storage, `None` is returned.
    pub fn get_certificate(&self, certificate_id: Field) -> (r: Option<BatchCertificate>)
        ensures
            match r {
                Some(certificate) => lookup(self@.certificates, certificate_id) == Some(certificate@),
                None => lookup(self@.certificates, certificate_id) is None,
            },
    {
        match map_get(&self.certificates, &certificate_id) {
            Some(certificate) => Some(certificate.clone()),
            None => None,
        }
    }

    /// Returns the certificates for the given `round`, each once.
    /// If the round does not exist in storage, there are none.
    pub fn get_certificates_for_round(&self, round: u64) -> (r: Vec<BatchCertificate>)
        ensures
            certificate_models(r@) == self@.certificates_in_round(round),
    {
        let mut r: Vec<BatchCertificate> = Vec::new();
        // The genesis round does not have batch certificates.
        if round == 0 {
            assert(certificate_models(r@) =~= self@.certificates_in_round(round));
            return r;
        }
        // Retrieve the certificate IDs.
        let mut ids: Vec<Field> = Vec::new();
        let ghost entries = entries_of(self@.rounds, round);
        if let Some(found) = map_get(&self.rounds, &round) {
            let items = set_iter(&found.set);
            let mut i: usize = 0;
            while i < items.len()
                invariant
                    i <= items.len(),
                    items.len() == entries.len(),
                    forall|j: int| 0 <= j < items.len() ==> *(#[trigger] items@[j]) == entries[j],
                    ids.len() == i,
                    forall|j: int| 0 <= j < i ==> #[trigger] ids@[j] == entries[j].0,
                decreases items.len() - i,
            {
                let entry: RoundEntry = *items[i];
                assert(entry == entries[i as int]);
                ids.push(entry.0);
                i += 1;
            }
        }
        assert(ids@ =~= entries.map_values(|entry: RoundEntry| entry.0));
        let ids = distinct_fields(ids);
        assert(ids@ == self@.ids_in_round(round));
        // Retrieve the certificates.
        let mut i: usize = 0;
        assert(certificate_models(r@) =~= stored(self@.certificates, ids@.take(0)));
        while i < ids.len()
            invariant
                i <= ids.len(),
                certificate_models(r@) == stored(self@.certificates, ids@.take(i as int)),
            decreases ids.len() - i,
        {
            let ghost before = r@;
            assert(ids@.take(i + 1).drop_last() =~= ids@.take(i as int));
            if let Some(certificate) = map_get(&self.certificates, &ids[i]) {
                r.push(certificate.clone());
                assert(certificate_models(r@) =~= certificate_models(before).push(certificate@));
            }
            i += 1;
        }
        assert(ids@.take(i as int) =~= ids@);
        r
    }
}

impl Storage {
    /// Inserts the given `certificate` into storage.
    ///
    /// This method assumes **all missing** transmissions are provided in the `missing_transmissions` map.
    ///
    /// This method triggers updates to the `rounds`, `certificates`, `batch_ids`, and `transmissions` maps.
    pub fn insert_certificate_atomic(
        &mut self,
        certificate: BatchCertificate,
        missing_transmissions: TransmissionMap,
    )
        requires
            old(self)@.covers(certificate@.header.transmission_ids, missing_transmissions@),
        ensures
            final(self)@ == old(self)@.insert(certificate@, missing_transmissions@),
            final(self)@.wf(),
            old(self)@.valid() && (old(self)@.is_new(certificate@) || lookup(
                old(self)@.certificates,
                certificate@.certificate_id,
            ) == Some(certificate@)) ==> final(self)@.valid(),
    {
        let batch_header = certificate.batch_header();
        let ghost before = self@;
        proof {
            use_type_invariant(&*self);
            lemma_insert_maps(before, certificate@, missing_transmissions@);
            if before.valid() && (before.is_new(certificate@) || lookup(
                before.certificates,
                certificate@.certificate_id,
            ) == Some(certificate@)) {
                law_insert_keeps_valid(before, certificate@, missing_transmissions@);
            }
        }
        // Retrieve the round.
        let round = batch_header.round();
        // Retrieve the certificate ID.
        let certificate_id = certificate.certificate_id();
        // Retrieve the batch ID.
        let batch_id = certificate.batch_id();
        // Retrieve the author of the batch.
        let author = certificate.author();

        // Insert the round to certificate ID entry.
        let entry: RoundEntry = (certificate_id, batch_id, author);
        let mut rounds = new_rounds();
        std::mem::swap(&mut self.rounds, &mut rounds);
        Self::insert_round_entry(&mut rounds, round, entry);
        self.rounds = rounds;
        // Insert the batch ID.
        let mut batch_ids = new_batch_ids();
        std::mem::swap(&mut self.batch_ids, &mut batch_ids);
        map_insert(&mut batch_ids, batch_id, round);
        self.batch_ids = batch_ids;
        // Insert the transmissions.
        let mut transmissions = new_transmissions();
        std::mem::swap(&mut self.transmissions, &mut transmissions);
        Self::attach_certificate_to_all(
            &mut transmissions,
            certificate.transmission_ids(),
            certificate_id,
            missing_transmissions,
        );
        self.transmissions = transmissions;
        // Insert the certificate.
        let mut certificates = new_certificates();
        std::mem::swap(&mut self.certificates, &mut certificates);
        map_insert(&mut certificates, certificate_id, certificate);
        self.certificates = certificates;
    }

    /// Inserts the entry into the given `round`.
    fn insert_round_entry(rounds: &mut IndexMap<u64, RoundEntries>, round: u64, entry: RoundEntry)
        ensures
            final(rounds).entries() == add_entry(old(rounds).entries(), round, entry),
    {
        if let Some(entries) = map_get_mut(rounds, &round) {
            set_put(&mut entries.set, entry);
            return;
        }
        let mut set = new_round_entries();
        set_put(&mut set, entry);
        map_insert(rounds, round, RoundEntries { set });
    }

    /// Inserts the following:
    ///   - Inserts **only the missing** transmissions from storage.
    ///   - Inserts the certificate ID into the corresponding set for **all** transmissions.
    fn attach_certificate_to_all(
        transmissions: &mut IndexMap<TransmissionKey, TransmissionRecord>,
        transmission_ids: &Vec<TransmissionID>,
        certificate_id: Field,
        missing_transmissions: TransmissionMap,
    )
        requires
            transmission_ids@.no_duplicates(),
            forall|k: TransmissionKey| #[trigger]
                declares(transmission_ids@, k) ==> has_key(old(transmissions).entries(), k)
                    || missing_transmissions@.contains_key(k),
        ensures
            final(transmissions).entries() == attach_all(
                old(transmissions).entries(),
                transmission_ids@,
                missing_transmissions@,
                certificate_id,
            ),
    {
        let ghost ids = transmission_ids@;
        let ghost missing = missing_transmissions@;
        let ghost start = transmissions.entries();
        let mut remaining = missing_transmissions;
        let mut i: usize = 0;
        assert(ids.take(0) =~= Seq::<TransmissionID>::empty());
        assert forall|j: int| 0 <= j < ids.len() implies has_key(start, (#[trigger] ids[j]).key())
            || missing.contains_key(ids[j].key()) by {
            assert(declares(ids, ids[j].key()));
        }
        while i < transmission_ids.len()
            invariant
                i <= transmission_ids.len(),
                transmission_ids@ == ids,
                ids.no_duplicates(),
                transmissions.entries() == attach_all(start, ids.take(i as int), missing, certificate_id),
                forall|k: TransmissionKey| has_key(start, k) ==> #[trigger] has_key(transmissions.entries(), k),
                forall|j: int|
                    i <= j < ids.len() ==> has_key(start, (#[trigger] ids[j]).key()) || missing.contains_key(
                        ids[j].key(),
                    ),
                forall|j: int|
                    i <= j < ids.len() && missing.contains_key((#[trigger] ids[j]).key())
                        ==> remaining@.contains_key(ids[j].key()) && remaining@[ids[j].key()]
                        == missing[ids[j].key()],
            decreases transmission_ids.len() - i,
        {
            let transmission_id = transmission_ids[i];
            let ghost before = transmissions.entries();
            let ghost left = remaining@;
            assert(ids.take(i + 1).drop_last() =~= ids.take(i as int));
            Self::attach_certificate(transmissions, transmission_id, certificate_id, &mut remaining);
            proof {
                lemma_attach_keeps_keys(before, transmission_id.key(), missing, certificate_id);
                assert forall|j: int|
                    i < j < ids.len() && missing.contains_key((#[trigger] ids[j]).key()) implies remaining@.contains_key(
                    ids[j].key(),
                ) && remaining@[ids[j].key()] == missing[ids[j].key()] by {
                    if ids[j].key() == ids[i as int].key() {
                        lemma_keys_differ(ids[j], ids[i as int]);
                    }
                    assert(left.contains_key(ids[j].key()));
                }
            }
            i += 1;
        }
        assert(ids.take(i as int) =~= ids);
    }

    /// Inserts the certificate ID into the set for the given transmission, which is taken
    /// from `missing_transmissions` where it is not in storage.
    fn attach_certificate(
        transmissions: &mut IndexMap<TransmissionKey, TransmissionRecord>,
        transmission_id: TransmissionID,
        certificate_id: Field,
        missing_transmissions: &mut TransmissionMap,
    )
        requires
            has_key(old(transmissions).entries(), transmission_id.key()) || old(missing_transmissions)@.contains_key(
                transmission_id.key(),
            ),
        ensures
            final(transmissions).entries() == attach(
                old(transmissions).entries(),
                transmission_id.key(),
                old(missing_transmissions)@,
                certificate_id,
            ),
            forall|k: TransmissionKey|
                k != transmission_id.key() && old(missing_transmissions)@.contains_key(k)
                    ==> #[trigger] final(missing_transmissions)@.contains_key(k)
                    && final(missing_transmissions)@[k] == old(missing_transmissions)@[k],
    {
        let key = transmission_id.key();
        if let Some(record) = map_get_mut(transmissions, &key) {
            set_put(&mut record.certificate_ids, certificate_id);
            return;
        }
        let transmission = missing_transmissions.remove(&transmission_id).unwrap();
        let mut certificate_ids = new_certificate_ids();
        set_put(&mut certificate_ids, certificate_id);
        assert(set_insert(Seq::<Field>::empty(), certificate_id) =~= seq![certificate_id]);
        map_insert(transmissions, key, TransmissionRecord { transmission, certificate_ids });
    }
}

impl Storage {
    /// Removes the given `certificate ID` from storage.
    ///
    /// This method triggers updates to the `rounds`, `certificates`, `batch_ids`, and `transmissions` maps.
    ///
    /// If the certificate was successfully removed, `true` is returned.
    /// If the certificate did not exist in storage, `false` is returned.
    pub fn remove_certificate(&mut self, certificate_id: Field) -> (r: bool)
        ensures
            r == has_key(old(self)@.certificates, certificate_id),
            final(self)@ == old(self)@.remove(certificate_id),
            final(self)@.wf(),
            old(self)@.valid() ==> final(self)@.valid(),
            old(self)@.sound() ==> final(self)@.sound(),
    {
        let ghost before = self@;
        proof {
            use_type_invariant(&*self);
            if before.valid() {
                law_remove_keeps_sound(before, certificate_id);
            }
        }
        // Retrieve the certificate.
        let certificate = match self.get_certificate(certificate_id) {
            Some(certificate) => certificate,
            None => {
                return false;
            },
        };
        proof {
            lemma_lookup_as_map(before.certificates, certificate_id);
            lemma_remove_maps(before, certificate_id);
        }
        // Retrieve the round.
        let round = certificate.round();
        // Retrieve the batch ID.
        let batch_id = certificate.batch_id();
        // Retrieve the author of the batch.
        let author = certificate.author();

        // Remove the round to certificate ID entry.
        let entry: RoundEntry = (certificate_id, batch_id, author);
        let mut rounds = new_rounds();
        std::mem::swap(&mut self.rounds, &mut rounds);
        Self::remove_round_entry(&mut rounds, round, entry);
        self.rounds = rounds;
        // Remove the certificate.
        let mut certificates = new_certificates();
        std::mem::swap(&mut self.certificates, &mut certificates);
        map_swap_remove(&mut certificates, &certificate_id);
        self.certificates = certificates;
        // Remove the batch ID.
        let mut batch_ids = new_batch_ids();
        std::mem::swap(&mut self.batch_ids, &mut batch_ids);
        map_swap_remove(&mut batch_ids, &batch_id);
        self.batch_ids = batch_ids;
        // If this is the last certificate ID for the transmission ID, remove the transmission.
        let mut transmissions = new_transmissions();
        std::mem::swap(&mut self.transmissions, &mut transmissions);
        Self::detach_certificate_from_all(&mut transmissions, certificate.transmission_ids(), certificate_id);
        self.transmissions = transmissions;
        // Return successfully.
        true
    }

    /// Removes the entry from the given `round`, and the round if it is empty then.
    fn remove_round_entry(rounds: &mut IndexMap<u64, RoundEntries>, round: u64, entry: RoundEntry)
        ensures
            final(rounds).entries() == drop_entry(old(rounds).entries(), round, entry),
    {
        let ghost before = rounds.entries();
        let mut is_empty = true;
        if let Some(entries) = map_get_mut(rounds, &round) {
            // Remove the round to certificate ID entry.
            set_take(&mut entries.set, &entry);
            is_empty = set_is_empty(&entries.set);
        }
        // If the round is empty, remove it.
        if is_empty {
            proof {
                if has_key(before, round) {
                    let left = set_swap_remove(entries_of(before, round), entry);
                    lemma_swap_remove_upsert(before, round, left);
                }
            }
            map_swap_remove(rounds, &round);
        }
    }

    /// Removes the certificate ID from the sets for the given transmissions, and those
    /// transmissions whose set is empty then.
    fn detach_certificate_from_all(
        transmissions: &mut IndexMap<TransmissionKey, TransmissionRecord>,
        transmission_ids: &Vec<TransmissionID>,
        certificate_id: Field,
    )
        ensures
            final(transmissions).entries() == detach_all(
                old(transmissions).entries(),
                transmission_ids@,
                certificate_id,
            ),
    {
        let ghost ids = transmission_ids@;
        let ghost start = transmissions.entries();
        let mut i: usize = 0;
        assert(ids.take(0) =~= Seq::<TransmissionID>::empty());
        while i < transmission_ids.len()
            invariant
                i <= transmission_ids.len(),
                transmission_ids@ == ids,
                transmissions.entries() == detach_all(start, ids.take(i as int), certificate_id),
            decreases transmission_ids.len() - i,
        {
            assert(ids.take(i + 1).drop_last() =~= ids.take(i as int));
            Self::detach_certificate(transmissions, transmission_ids[i], certificate_id);
            i += 1;
        }
        assert(ids.take(i as int) =~= ids);
    }

    /// Removes the certificate ID from the set for the given transmission, and the
    /// transmission if the set is empty then.
    fn detach_certificate(
        transmissions: &mut IndexMap<TransmissionKey, TransmissionRecord>,
        transmission_id: TransmissionID,
        certificate_id: Field,
    )
        ensures
            final(transmissions).entries() == detach(
                old(transmissions).entries(),
                transmission_id.key(),
                certificate_id,
            ),
    {
        let ghost before = transmissions.entries();
        let key = transmission_id.key();
        let mut is_empty = false;
        if let Some(record) = map_get_mut(transmissions, &key) {
            // Remove the certificate ID for the transmission ID.
            set_take(&mut record.certificate_ids, &certificate_id);
            is_empty = set_is_empty(&record.certificate_ids);
        }
        // If there are no more certificate IDs for the transmission ID, remove the transmission.
        if is_empty {
            proof {
                let record = lookup(before, key).unwrap();
                lemma_swap_remove_upsert(before, key, (record.0, set_swap_remove(record.1, certificate_id)));
            }
            map_swap_remove(transmissions, &key);
        }
    }

    /// Updates the storage to the next round.
    fn update_current_round(&mut self, next_round: u64)
        ensures
            final(self)@ == old(self)@.advance(next_round),
            final(self)@.wf(),
            old(self)@.valid() && old(self)@.current_round <= next_round ==> final(self)@.valid(),
            old(self)@.sound() && old(self)@.current_round <= next_round ==> final(self)@.sound(),
    {
        proof {
            use_type_invariant(&*self);
            if self@.valid() && self@.current_round <= next_round {
                law_advance_keeps_sound(self@, next_round);
            }
        }
        // Update the current round.
        self.current_round = next_round;
        let ghost moved = self@;

        // Fetch the current GC round.
        let current_gc_round = self.gc_round;
        // Compute the next GC round.
        let next_gc_round = next_round.saturating_sub(self.max_gc_rounds);
        // Check if storage needs to be garbage collected.
        if next_gc_round > current_gc_round {
            // Remove the GC round(s) from storage.
            let mut gc_round: u64 = current_gc_round;
            let mut done = false;
            while !done
                invariant
                    current_gc_round <= gc_round <= next_gc_round,
                    !done ==> self@ == moved.collect_rounds(current_gc_round as int, gc_round - 1),
                    done ==> self@ == moved.collect_rounds(current_gc_round as int, next_gc_round as int),
                decreases next_gc_round - gc_round + if done { 0int } else { 1 },
            {
                // Remove the certificates for the GC round.
                let certificates = self.get_certificates_for_round(gc_round);
                let ghost before = self@;
                let ghost models = certificate_models(certificates@);
                assert(models.take(0) =~= Seq::<CertificateModel>::empty());
                let mut i: usize = 0;
                while i < certificates.len()
                    invariant
                        i <= certificates.len(),
                        models == certificate_models(certificates@),
                        self@ == before.remove_all(models.take(i as int)),
                    decreases certificates.len() - i,
                {
                    assert(models.take(i + 1).drop_last() =~= models.take(i as int));
                    self.remove_certificate(certificates[i].certificate_id());
                    i += 1;
                }
                assert(models.take(i as int) =~= models);
                assert(self@ == moved.collect_rounds(current_gc_round as int, gc_round as int));
                if gc_round == next_gc_round {
                    done = true;
                } else {
                    gc_round += 1;
                }
            }
            proof {
                use_type_invariant(&*self);
            }
            // Update the GC round.
            self.gc_round = next_gc_round;
        }
    }
}

impl Storage {
    /// Initializes a new instance of storage, from the current committee.
    pub fn new(committee: &Committee, max_gc_rounds: u64) -> (r: Self)
        ensures
            r@ == StorageModel::initial(
                if committee@.starting_round >= 1 {
                    committee@.starting_round
                } else {
                    1
                },
                max_gc_rounds,
            ),
            r@ == StorageModel::opened(committee@.starting_round, max_gc_rounds),
            r@.sound(),
    {
        // Retrieve the current round.
        let starting_round = committee.starting_round();
        let current_round: u64 = if starting_round >= 1 {
            starting_round
        } else {
            1
        };

        // Return the storage.
        let mut storage = Storage {
            current_height: 0,
            current_round: 0,
            gc_round: 0,
            max_gc_rounds,
            rounds: new_rounds(),
            certificates: new_certificates(),
            batch_ids: new_batch_ids(),
            transmissions: new_transmissions(),
        };
        assert(storage@ =~= StorageModel::initial(0, max_gc_rounds));
        proof {
            law_initial_is_sound(current_round, max_gc_rounds);
            lemma_advance_empty(storage@, current_round);
        }
        // Update the storage to the current round.
        storage.update_current_round(current_round);
        // Return the storage.
        storage
    }

    /// Increments storage to the next round, updating the current round.
    /// The current committee is what the ledger answers, if it has one.
    ///
    /// Note: This method is only called once per round, upon certification of the primary's batch.
    pub fn increment_to_next_round(&mut self, current_committee: Option<&Committee>) -> (r: Result<(), StorageError>)
        requires
            old(self)@.current_round < u64::MAX,
        ensures
            match r {
                Ok(()) => {
                    &&& old(self)@.increment_fault(committee_model(current_committee)) is None
                    &&& final(self)@ == old(self)@.advance((old(self)@.current_round + 1) as u64)
                },
                Err(error) => {
                    &&& old(self)@.increment_fault(committee_model(current_committee)) == Some(error)
                    &&& final(self)@ == old(self)@
                },
            },
            final(self)@.wf(),
            old(self)@.valid() ==> final(self)@.valid(),
            old(self)@.sound() ==> final(self)@.sound(),
    {
        proof {
            use_type_invariant(&*self);
        }
        // Retrieve the next round.
        let next_round = self.current_round + 1;
        // Ensure there are no certificates for the next round yet.
        if self.contains_certificates_for_round(next_round) {
            return Err(StorageError::NextRoundHasCertificates);
        }
        // Retrieve the current committee.
        let current_committee = match current_committee {
            Some(committee) => committee,
            None => {
                return Err(StorageError::MissingCurrentCommittee);
            },
        };
        // Ensure the next round is at or after the current committee's starting round.
        if next_round < current_committee.starting_round() {
            return Err(StorageError::NextRoundBehindCommittee);
        }
        // Update the storage to the next round.
        self.update_current_round(next_round);
        Ok(())
    }

    /// Syncs the current height with the block.
    pub fn sync_height_with_block(&mut self, block: &Block)
        ensures
            final(self)@ == (StorageModel {
                current_height: if block@.height > old(self)@.current_height {
                    block@.height
                } else {
                    old(self)@.current_height
                },
                ..old(self)@
            }),
            final(self)@ == old(self)@.sync_height(block@.height),
            final(self)@.wf(),
            old(self)@.valid() ==> final(self)@.valid(),
            old(self)@.sound() ==> final(self)@.sound(),
    {
        proof {
            use_type_invariant(&*self);
            let height = if block@.height > self@.current_height {
                block@.height
            } else {
                self@.current_height
            };
            if self@.valid() {
                lemma_same_maps(self@, StorageModel { current_height: height, ..self@ });
            }
        }
        // If the block height is greater than the current height in storage, sync the height.
        if block.height() > self.current_height {
            // Update the current height in storage.
            self.current_height = block.height();
        }
    }

    /// Syncs the current round with the block.
    pub fn sync_round_with_block(&mut self, next_round: u64)
        ensures
            ({
                let next_round = if next_round >= 1 {
                    next_round
                } else {
                    1
                };
                final(self)@ == (if next_round > old(self)@.current_round {
                    old(self)@.advance(next_round)
                } else {
                    old(self)@
                })
            }),
            final(self)@ == old(self)@.sync_round(next_round),
            final(self)@.wf(),
            old(self)@.valid() ==> final(self)@.valid(),
            old(self)@.sound() ==> final(self)@.sound(),
    {
        proof {
            use_type_invariant(&*self);
        }
        // Retrieve the current round in the block.
        let next_round: u64 = if next_round >= 1 {
            next_round
        } else {
            1
        };
        // If the round in the block is greater than the current round in storage, sync the round.
        if next_round > self.current_round {
            // Update the current round in storage.
            self.update_current_round(next_round);
        }
    }
}

impl Storage {
    /// Returns the rounds for which the ledger is to be asked for a committee when the given
    /// `batch_header` is checked: that of the batch, and the previous one where it is above
    /// the GC round.
    pub fn committees_to_request(&self, batch_header: &BatchHeader) -> (r: (u64, Option<u64>))
        ensures
            r == (batch_header@.round, self@.previous_round_of_interest(batch_header@)),
    {
        let previous_round = batch_header.round().saturating_sub(1);
        if previous_round > self.gc_round {
            (batch_header.round(), Some(previous_round))
        } else {
            (batch_header.round(), None)
        }
    }

    /// Checks the given `batch_header` for validity, returning the missing transmissions from storage.
    ///
    /// This method ensures the following invariants:
    /// - The batch ID does not already exist in storage.
    /// - The author is a member of the committee for the batch round.
    /// - The timestamp is within the allowed time range.
    /// - None of the transmissions are from any past rounds (up to GC).
    /// - All transmissions declared in the batch header are provided or exist in storage (up to GC).
    /// - All previous certificates declared in the certificate exist in storage (up to GC).
    /// - All previous certificates are for the previous round (i.e. round - 1).
    /// - All previous certificates contain a unique author.
    /// - The previous certificates reached the quorum threshold (2f+1).
    pub fn check_batch_header(
        &self,
        batch_header: &BatchHeader,
        transmissions: TransmissionMap,
        context: &BatchContext,
    ) -> (r: Result<TransmissionMap, StorageError>)
        ensures
            answers(r, self@.check_header(batch_header@, transmissions@, context@)),
    {
        // Ensure the batch ID does not already exist in storage.
        if self.contains_batch(batch_header.batch_id()) {
            return Err(StorageError::BatchExists);
        }
        // Retrieve the committee for the batch round.
        let committee = match &context.committee {
            Some(committee) => committee,
            None => {
                return Err(StorageError::MissingCommittee);
            },
        };
        // Ensure the author is in the committee.
        if !committee.is_committee_member(batch_header.author()) {
            return Err(StorageError::AuthorNotInCommittee(batch_header.author()));
        }
        // Check the timestamp for liveness.
        if !context.is_live(batch_header.timestamp()) {
            return Err(StorageError::TimestampOutOfRange);
        }
        // Ensure the declared transmission IDs are all present in storage or the given transmissions map.
        let missing_transmissions = match self.check_transmissions(
            batch_header.round(),
            batch_header.transmission_ids(),
            transmissions,
        ) {
            Ok(missing_transmissions) => missing_transmissions,
            Err(error) => {
                return Err(error);
            },
        };
        // Ensure the previous certificates are in order.
        match self.check_ancestry(batch_header, context) {
            Some(error) => Err(error),
            None => Ok(missing_transmissions),
        }
    }

    /// Returns `true` if one of the given certificates is of a past round: one before the
    /// given round, and above the GC round.
    fn is_any_before(&self, ids: &IndexSet<Field>, round: u64) -> (r: bool)
        ensures
            r == self@.any_before(ids.items(), round),
    {
        let items = set_iter(ids);
        let mut i: usize = 0;
        while i < items.len()
            invariant
                i <= items.len(),
                items.len() == ids.items().len(),
                forall|j: int| 0 <= j < items.len() ==> *(#[trigger] items@[j]) == ids.items()[j],
                forall|j: int|
                    0 <= j < i ==> !(lookup(self@.certificates, #[trigger] ids.items()[j]) matches Some(c)
                        && self@.gc_round < c.header.round < round),
            decreases items.len() - i,
        {
            let id: Field = *items[i];
            assert(id == ids.items()[i as int]);
            if let Some(certificate) = map_get(&self.certificates, &id) {
                if self.gc_round < certificate.round() && certificate.round() < round {
                    return true;
                }
            }
            i += 1;
        }
        false
    }

    /// Checks that each of the given transmissions is in storage, and not from a past
    /// round, or else provided. Returns those that are not in storage.
    fn check_transmissions(
        &self,
        round: u64,
        ids: &Vec<TransmissionID>,
        transmissions: TransmissionMap,
    ) -> (r: Result<TransmissionMap, StorageError>)
        requires
            ids@.no_duplicates(),
        ensures
            match r {
                Ok(missing) => {
                    &&& self@.transmissions_fault(round, transmissions@, ids@) is None
                    &&& missing@ == self@.missing(ids@, transmissions@)
                },
                Err(error) => self@.transmissions_fault(round, transmissions@, ids@) == Some(error),
            },
    {
        let ghost provided = transmissions@;
        let mut remaining = transmissions;
        // Initialize a list for the missing transmissions from storage.
        let mut missing_transmissions = TransmissionMap::new();
        assert(missing_transmissions@ =~= self@.missing(ids@.take(0), provided));
        let mut i: usize = 0;
        while i < ids.len()
            invariant
                i <= ids.len(),
                ids@.no_duplicates(),
                provided == transmissions@,
                self@.transmissions_fault(round, provided, ids@.take(i as int)) is None,
                missing_transmissions@ == self@.missing(ids@.take(i as int), provided),
                forall|j: int|
                    i <= j < ids.len() ==> (remaining@.contains_key((#[trigger] ids@[j]).key())
                        <==> provided.contains_key(ids@[j].key())),
                forall|j: int|
                    i <= j < ids.len() && provided.contains_key((#[trigger] ids@[j]).key())
                        ==> remaining@[ids@[j].key()] == provided[ids@[j].key()],
            decreases ids.len() - i,
        {
            let id = ids[i];
            proof {
                assert(ids@.take(i + 1).drop_last() =~= ids@.take(i as int));
                assert(ids@.take(i + 1).last() == id);
                assert forall|j: int| i < j < ids.len() implies (#[trigger] ids@[j]).key() != id.key() by {
                    if ids@[j].key() == id.key() {
                        lemma_keys_differ(ids@[j], id);
                    }
                }
            }
            match map_get(&self.transmissions, &id.key()) {
                Some(record) => {
                    // Ensure the transmission is not from a past round.
                    if self.is_any_before(&record.certificate_ids, round) {
                        proof {
                            self@.lemma_transmissions_fault_stays(round, provided, ids@, i + 1);
                        }
                        return Err(StorageError::TransmissionFromPastRound);
                    }
                    assert(self@.missing(ids@.take(i + 1), provided) =~= missing_transmissions@) by {
                        lemma_declares_step(ids@, i as int);
                    }
                },
                None => {
                    // If the transmission ID does not exist, ensure it was provided by the caller.
                    match remaining.remove(&id) {
                        Some(transmission) => {
                            // Append the transmission.
                            missing_transmissions.insert(id, transmission);
                        },
                        None => {
                            proof {
                                self@.lemma_transmissions_fault_stays(round, provided, ids@, i + 1);
                            }
                            return Err(StorageError::MissingTransmission);
                        },
                    }
                    assert(self@.missing(ids@.take(i + 1), provided) =~= missing_transmissions@) by {
                        lemma_declares_step(ids@, i as int);
                    }
                },
            }
            i += 1;
        }
        assert(ids@.take(i as int) =~= ids@);
        Ok(missing_transmissions)
    }

    /// Checks the previous certificates of a batch. Returns what is wrong with them.
    fn check_ancestry(&self, batch_header: &BatchHeader, context: &BatchContext) -> (r: Option<StorageError>)
        ensures
            r == self@.ancestry_fault(batch_header@, context@),
    {
        // Compute the previous round.
        let previous_round = batch_header.round().saturating_sub(1);
        // Check if the previous round is within range of the GC round.
        if previous_round <= self.gc_round {
            return None;
        }
        // Retrieve the committee for the previous round.
        let previous_committee = match &context.previous_committee {
            Some(committee) => committee,
            None => {
                return Some(StorageError::MissingPreviousCommittee);
            },
        };
        // Ensure the previous round certificates exists in storage.
        if !self.contains_certificates_for_round(previous_round) {
            return Some(StorageError::MissingPreviousCertificates);
        }
        let ids = batch_header.previous_certificate_ids();
        // Ensure the number of previous certificate IDs is at or below the number of committee members.
        if ids.len() > previous_committee.num_members() {
            return Some(StorageError::TooManyPreviousCertificates);
        }
        // Initialize a set of the previous authors.
        let mut previous_authors = AddressSet::new();
        assert(previous_authors@ =~= self@.authors(ids@.take(0)));
        // Ensure storage contains all declared previous certificates (up to GC).
        let mut i: usize = 0;
        while i < ids.len()
            invariant
                i <= ids.len(),
                self@.previous_fault(previous_round, ids@.take(i as int)) is None,
                previous_authors@ == self@.authors(ids@.take(i as int)),
                ids@ == batch_header@.previous_certificate_ids,
                previous_round == minus(batch_header@.round, 1),
                previous_round > self@.gc_round,
                context@.previous_committee == Some(previous_committee@),
                has_key(self@.rounds, previous_round),
                ids@.len() <= previous_committee@.members.len(),
            decreases ids.len() - i,
        {
            let id = ids[i];
            proof {
                assert(ids@.take(i + 1).drop_last() =~= ids@.take(i as int));
                assert(ids@.take(i + 1).last() == id);
            }
            // Retrieve the previous certificate.
            let previous_certificate = match map_get(&self.certificates, &id) {
                Some(certificate) => certificate,
                None => {
                    proof {
                        self@.lemma_previous_fault_stays(previous_round, ids@, i + 1);
                    }
                    return Some(StorageError::MissingPreviousCertificate(id));
                },
            };
            // Ensure the previous certificate is for the previous round.
            if previous_certificate.round() != previous_round {
                proof {
                    self@.lemma_previous_fault_stays(previous_round, ids@, i + 1);
                }
                return Some(StorageError::PreviousCertificateFromOtherRound);
            }
            // Ensure the previous author is new.
            if previous_authors.contains(previous_certificate.author()) {
                proof {
                    self@.lemma_previous_fault_stays(previous_round, ids@, i + 1);
                }
                return Some(StorageError::DuplicatePreviousAuthor);
            }
            // Insert the author of the previous certificate.
            previous_authors.insert(previous_certificate.author());
            assert(previous_authors@ =~= self@.authors(ids@.take(i + 1)));
            i += 1;
        }
        assert(ids@.take(i as int) =~= ids@);
        // Ensure the previous certificates have reached the quorum threshold.
        if !previous_committee.is_quorum_threshold_reached(&previous_authors) {
            return Some(StorageError::PreviousQuorumNotReached);
        }
        None
    }
}

impl Storage {
    /// Checks the given `certificate` for validity, returning the missing transmissions from storage.
    ///
    /// This method ensures the following invariants:
    /// - The certificate ID does not already exist in storage.
    /// - The batch ID does not already exist in storage.
    /// - The author is a member of the committee for the batch round.
    /// - The author has not already created a certificate for the batch round.
    /// - The timestamp is within the allowed time range.
    /// - None of the transmissions are from any past rounds (up to GC).
    /// - All transmissions declared in the batch header are provided or exist in storage (up to GC).
    /// - All previous certificates declared in the certificate exist in storage (up to GC).
    /// - All previous certificates are for the previous round (i.e. round - 1).
    /// - The previous certificates reached the quorum threshold (2f+1).
    /// - The timestamps from the signers are all within the allowed time range.
    /// - The signers have reached the quorum threshold (2f+1).
    pub fn check_certificate(
        &self,
        certificate: &BatchCertificate,
        transmissions: TransmissionMap,
        context: &BatchContext,
    ) -> (r: Result<TransmissionMap, StorageError>)
        ensures
            answers(
                r,
                self@.check_certificate(certificate@, certificate@.signers(), transmissions@, context@),
            ),
    {
        let signers = certificate.signers();
        self.check_certificate_signed_by(certificate, &signers, transmissions, context)
    }

    /// Checks the given `certificate`, as signed by the given addresses, for validity,
    /// returning the missing transmissions from storage.
    pub fn check_certificate_signed_by(
        &self,
        certificate: &BatchCertificate,
        signers: &Vec<Address>,
        transmissions: TransmissionMap,
        context: &BatchContext,
    ) -> (r: Result<TransmissionMap, StorageError>)
        ensures
            answers(r, self@.check_certificate(certificate@, signers@, transmissions@, context@)),
    {
        // Ensure the certificate ID does not already exist in storage.
        if self.contains_certificate(certificate.certificate_id()) {
            return Err(StorageError::CertificateExists);
        }
        // Ensure the storage does not already contain a certificate for this author in this round.
        if self.contains_certificate_in_round_from(certificate.round(), certificate.author()) {
            return Err(StorageError::AuthorExists);
        }
        // Ensure the batch header is well-formed.
        let missing_transmissions = match self.check_batch_header(
            certificate.batch_header(),
            transmissions,
            context,
        ) {
            Ok(missing_transmissions) => missing_transmissions,
            Err(error) => {
                return Err(error);
            },
        };
        // Check the timestamps for liveness.
        if !Self::are_timestamps_live(certificate, context) {
            return Err(StorageError::TimestampOutOfRange);
        }
        // Retrieve the committee for the batch round.
        let committee = match &context.committee {
            Some(committee) => committee,
            None => {
                return Err(StorageError::MissingCommittee);
            },
        };
        // Ensure the signatures are from the committee, and have reached the quorum threshold.
        match Self::check_signers(certificate.author(), signers, committee) {
            Some(error) => Err(error),
            None => Ok(missing_transmissions),
        }
    }

    /// Returns `true` if the timestamps of all signatures are within the allowed time range.
    fn are_timestamps_live(certificate: &BatchCertificate, context: &BatchContext) -> (r: bool)
        ensures
            r == context@.are_live(certificate@.timestamps()),
    {
        let signatures = certificate.signatures();
        let ghost timestamps = certificate@.timestamps();
        let mut i: usize = 0;
        while i < signatures.len()
            invariant
                i <= signatures.len(),
                certificate@.signatures == signature_pairs(signatures@),
                timestamps == certificate@.timestamps(),
                forall|j: int| 0 <= j < i ==> context@.is_live(#[trigger] timestamps[j]),
            decreases signatures.len() - i,
        {
            assert(timestamps[i as int] == signatures@[i as int].1);
            // Check the timestamp for liveness.
            if !context.is_live(signatures[i].1) {
                return false;
            }
            i += 1;
        }
        true
    }

    /// Checks that the signers are in the committee, and that with the author they have
    /// the stake of a quorum. Returns what is wrong with them.
    fn check_signers(author: Address, signers: &Vec<Address>, committee: &Committee) -> (r: Option<StorageError>)
        ensures
            r == (match first_outsider(committee@, signers@) {
                Some(signer) => Some(StorageError::SignerNotInCommittee(signer)),
                None => if committee@.quorum_reached(distinct(seq![author] + signers@)) {
                    None
                } else {
                    Some(StorageError::QuorumNotReached)
                },
            }),
    {
        // Initialize a set of the signers.
        let mut all_signers = AddressSet::new();
        // Append the batch author.
        all_signers.insert(author);
        proof {
            let first = seq![author] + signers@.take(0);
            assert(first =~= seq![author]);
            assert(first.drop_last() =~= Seq::<Address>::empty());
            assert(distinct(first.drop_last()) =~= Seq::<Address>::empty());
        }
        // Iterate over the signers.
        let mut i: usize = 0;
        while i < signers.len()
            invariant
                i <= signers.len(),
                first_outsider(committee@, signers@.take(i as int)) is None,
                all_signers@ == distinct(seq![author] + signers@.take(i as int)),
            decreases signers.len() - i,
        {
            let signer = signers[i];
            proof {
                assert(signers@.take(i + 1).drop_last() =~= signers@.take(i as int));
                let next = seq![author] + signers@.take(i + 1);
                assert(next.drop_last() =~= seq![author] + signers@.take(i as int));
                assert(next.last() == signer);
            }
            // Ensure the signer is in the committee.
            if !committee.is_committee_member(signer) {
                proof {
                    lemma_first_outsider_stays(committee@, signers@, i + 1);
                }
                return Some(StorageError::SignerNotInCommittee(signer));
            }
            // Append the signer.
            all_signers.insert(signer);
            i += 1;
        }
        assert(signers@.take(i as int) =~= signers@);
        // Ensure the signatures have reached the quorum threshold.
        if !committee.is_quorum_threshold_reached(&all_signers) {
            return Some(StorageError::QuorumNotReached);
        }
        None
    }

    /// Inserts the given `certificate` into storage.
    ///
    /// This method triggers updates to the `rounds`, `certificates`, `batch_ids`, and `transmissions` maps.
    ///
    /// This method ensures the following invariants:
    /// - The certificate ID does not already exist in storage.
    /// - The batch ID does not already exist in storage.
    /// - All transmissions declared in the certificate are provided or exist in storage (up to GC).
    /// - All previous certificates declared in the certificate exist in storage (up to GC).
    /// - All previous certificates are for the previous round (i.e. round - 1).
    /// - The previous certificates reached the quorum threshold (2f+1).
    pub fn insert_certificate(
        &mut self,
        certificate: BatchCertificate,
        transmissions: TransmissionMap,
        context: &BatchContext,
    ) -> (r: Result<(), StorageError>)
        ensures
            grants(
                r,
                old(self)@,
                final(self)@,
                old(self)@.try_insert(certificate@, certificate@.signers(), transmissions@, context@),
            ),
            final(self)@.wf(),
            old(self)@.valid() ==> final(self)@.valid(),
            old(self)@.sound() ==> final(self)@.sound(),
    {
        let signers = certificate.signers();
        self.insert_certificate_signed_by(certificate, &signers, transmissions, context)
    }

    /// Inserts the given `certificate`, as signed by the given addresses, into storage.
    pub fn insert_certificate_signed_by(
        &mut self,
        certificate: BatchCertificate,
        signers: &Vec<Address>,
        transmissions: TransmissionMap,
        context: &BatchContext,
    ) -> (r: Result<(), StorageError>)
        ensures
            grants(
                r,
                old(self)@,
                final(self)@,
                old(self)@.try_insert(certificate@, signers@, transmissions@, context@),
            ),
            final(self)@.wf(),
            old(self)@.valid() ==> final(self)@.valid(),
            old(self)@.sound() ==> final(self)@.sound(),
    {
        let batch_header = certificate.batch_header();
        proof {
            use_type_invariant(&*self);
            if self@.valid() && self@.try_insert(certificate@, signers@, transmissions@, context@) is Ok {
                law_accepted_insert_keeps_sound(self@, certificate@, signers@, transmissions@, context@);
            }
        }
        // Ensure the certificate round is above the GC round.
        if batch_header.round() <= self.gc_round {
            return Err(StorageError::CertificateAtOrBelowGcRound);
        }
        // Ensure the certificate and its transmissions are valid.
        let missing_transmissions = match self.check_certificate_signed_by(
            &certificate,
            signers,
            transmissions,
            context,
        ) {
            Ok(missing_transmissions) => missing_transmissions,
            Err(error) => {
                return Err(error);
            },
        };
        // Insert the certificate into storage.
        self.insert_certificate_atomic(certificate, missing_transmissions);
        Ok(())
    }
}

/// Whether a request is granted, and the storage changed, or refused, and the storage left,
/// as the answer says.
pub open spec fn grants(
    result: Result<(), StorageError>,
    before: StorageModel,
    after: StorageModel,
    answer: Result<StorageModel, StorageError>,
) -> bool {
    match result {
        Ok(()) => answer == Ok::<StorageModel, StorageError>(after),
        Err(error) => answer == Err::<StorageModel, StorageError>(error) && after == before,
    }
}

/// Whether the result of a check is the given answer.
pub open spec fn answers(
    result: Result<TransmissionMap, StorageError>,
    answer: Result<Provided, StorageError>,
) -> bool {
    match result {
        Ok(missing) => answer == Ok::<Provided, StorageError>(missing@),
        Err(error) => answer == Err::<Provided, StorageError>(error),
    }
}

impl Storage {
    /// Returns `true` if the certificate is skipped when it is synced with a block: its round
    /// is at or below the GC round, or it exists in storage.
    pub fn is_passed_over(&self, certificate: &BatchCertificate) -> (r: bool)
        ensures
            r == self@.passes_over(certificate@),
    {
        certificate.round() <= self.gc_round || self.contains_certificate(certificate.certificate_id())
    }

    /// Returns the transmissions of the certificate that the ledger is to be asked for
    /// when it is synced with the block: those that are neither in storage nor in the block.
    pub fn transmissions_to_request(&self, block: &Block, certificate: &BatchCertificate) -> (r: Vec<TransmissionID>)
        ensures
            r@ == (if self@.passes_over(certificate@) {
                Seq::empty()
            } else {
                self@.to_request(certificate@.header.transmission_ids, block@.transmissions)
            }),
    {
        let mut r: Vec<TransmissionID> = Vec::new();
        if self.is_passed_over(certificate) {
            return r;
        }
        let ids = certificate.transmission_ids();
        assert(r@ =~= self@.to_request(ids@.take(0), block@.transmissions));
        let mut i: usize = 0;
        while i < ids.len()
            invariant
                i <= ids.len(),
                r@ == self@.to_request(ids@.take(i as int), block@.transmissions),
            decreases ids.len() - i,
        {
            let id = ids[i];
            assert(ids@.take(i + 1).drop_last() =~= ids@.take(i as int));
            assert(ids@.take(i + 1).last() == id);
            let in_block = match id {
                TransmissionID::Ratification => true,
                TransmissionID::Solution(commitment) => block.get_solution(commitment).is_some(),
                TransmissionID::Transaction(transaction_id) => block.get_transaction(transaction_id).is_some(),
            };
            if !in_block && !self.contains_transmission(id) {
                r.push(id);
            }
            i += 1;
        }
        assert(ids@.take(i as int) =~= ids@);
        r
    }

    /// Syncs the batch certificate with the block. The given transmissions are what the
    /// ledger answers for those that are neither in storage nor in the block.
    ///
    /// If the certificate is not inserted although it is not skipped, the reason is returned.
    pub fn sync_certificate_with_block(
        &mut self,
        block: &Block,
        certificate: &BatchCertificate,
        ledger_transmissions: &TransmissionMap,
        context: &BatchContext,
    ) -> (r: Result<(), StorageError>)
        ensures
            grants(
                r,
                old(self)@,
                final(self)@,
                old(self)@.try_sync(
                    certificate@,
                    certificate@.signers(),
                    block@.transmissions,
                    ledger_transmissions@,
                    context@,
                ),
            ),
            final(self)@.wf(),
            old(self)@.valid() ==> final(self)@.valid(),
            old(self)@.sound() ==> final(self)@.sound(),
    {
        let signers = certificate.signers();
        self.sync_certificate_signed_by(block, certificate, &signers, ledger_transmissions, context)
    }

    /// Syncs the batch certificate, as signed by the given addresses, with the block.
    pub fn sync_certificate_signed_by(
        &mut self,
        block: &Block,
        certificate: &BatchCertificate,
        signers: &Vec<Address>,
        ledger_transmissions: &TransmissionMap,
        context: &BatchContext,
    ) -> (r: Result<(), StorageError>)
        ensures
            grants(
                r,
                old(self)@,
                final(self)@,
                old(self)@.try_sync(
                    certificate@,
                    signers@,
                    block@.transmissions,
                    ledger_transmissions@,
                    context@,
                ),
            ),
            final(self)@.wf(),
            old(self)@.valid() ==> final(self)@.valid(),
            old(self)@.sound() ==> final(self)@.sound(),
    {
        proof {
            use_type_invariant(&*self);
        }
        // Skip if the certificate round is at or below the GC round, or the certificate ID
        // already exists in storage.
        if self.is_passed_over(certificate) {
            return Ok(());
        }
        // Retrieve the transmissions for the certificate.
        let missing_transmissions = self.fetch_transmissions(
            certificate.transmission_ids(),
            block,
            ledger_transmissions,
        );
        // Insert the batch certificate into storage.
        self.insert_certificate_signed_by(certificate.clone(), signers, missing_transmissions, context)
    }

    /// Returns those of the given transmissions that are not in storage, from the block
    /// or else from the ledger, as far as one of them has it.
    fn fetch_transmissions(
        &self,
        ids: &Vec<TransmissionID>,
        block: &Block,
        ledger_transmissions: &TransmissionMap,
    ) -> (r: TransmissionMap)
        ensures
            r@ == self@.fetched(ids@, block@.transmissions, ledger_transmissions@),
    {
        let ghost in_block = block@.transmissions;
        let ghost in_ledger = ledger_transmissions@;
        let mut missing_transmissions = TransmissionMap::new();
        assert(missing_transmissions@ =~= self@.fetched(ids@.take(0), in_block, in_ledger));
        let mut i: usize = 0;
        while i < ids.len()
            invariant
                i <= ids.len(),
                in_block == block@.transmissions,
                in_ledger == ledger_transmissions@,
                missing_transmissions@ == self@.fetched(ids@.take(i as int), in_block, in_ledger),
            decreases ids.len() - i,
        {
            let id = ids[i];
            let ghost before = missing_transmissions@;
            // If the transmission ID exists in storage, skip it.
            if !self.contains_transmission(id) {
                // Retrieve the transmission.
                let found = match id {
                    TransmissionID::Ratification => None,
                    TransmissionID::Solution(commitment) => match block.get_solution(commitment) {
                        Some(solution) => Some(solution),
                        // Otherwise, try to load the solution from the ledger.
                        None => ledger_transmissions.get(&id),
                    },
                    TransmissionID::Transaction(transaction_id) => match block.get_transaction(transaction_id) {
                        Some(transaction) => Some(transaction),
                        // Otherwise, try to load the transaction from the ledger.
                        None => ledger_transmissions.get(&id),
                    },
                };
                // Insert the transmission.
                if let Some(transmission) = found {
                    missing_transmissions.insert(id, transmission.clone());
                }
            }
            proof {
                lemma_declares_step(ids@, i as int);
                assert(missing_transmissions@ =~= self@.fetched(ids@.take(i + 1), in_block, in_ledger));
            }
            i += 1;
        }
        assert(ids@.take(i as int) =~= ids@);
        missing_transmissions
    }
}

impl Storage {
    /// Returns the `(round, (certificate ID, batch ID, author))` entries, in order.
    pub fn rounds_iter(&self) -> (r: Vec<(u64, Vec<RoundEntry>)>)
        ensures
            r.len() == self@.rounds.len(),
            forall|i: int|
                0 <= i < r.len() ==> (#[trigger] r@[i]).0 == self@.rounds[i].0 && r@[i].1@ == self@.rounds[i].1,
    {
        let pairs = map_iter(&self.rounds);
        let mut r: Vec<(u64, Vec<RoundEntry>)> = Vec::new();
        let mut i: usize = 0;
        while i < pairs.len()
            invariant
                i <= pairs.len(),
                pairs.len() == self@.rounds.len(),
                forall|j: int|
                    0 <= j < pairs.len() ==> *(#[trigger] pairs@[j]).0 == self@.rounds[j].0 && pairs@[j].1@
                        == self@.rounds[j].1,
                r.len() == i,
                forall|j: int|
                    0 <= j < i ==> (#[trigger] r@[j]).0 == self@.rounds[j].0 && r@[j].1@ == self@.rounds[j].1,
            decreases pairs.len() - i,
        {
            let pair = pairs[i];
            assert(pair == pairs@[i as int]);
            let items = set_iter(&pair.1.set);
            let mut entries: Vec<RoundEntry> = Vec::new();
            let mut j: usize = 0;
            while j < items.len()
                invariant
                    j <= items.len(),
                    items.len() == pair.1@.len(),
                    forall|k: int| 0 <= k < items.len() ==> *(#[trigger] items@[k]) == pair.1@[k],
                    entries@ =~= pair.1@.take(j as int),
                decreases items.len() - j,
            {
                let entry: RoundEntry = *items[j];
                assert(entry == pair.1@[j as int]);
                entries.push(entry);
                j += 1;
            }
            assert(entries@ =~= pair.1@);
            r.push((*pair.0, entries));
            i += 1;
        }
        r
    }

    /// Returns the `(certificate ID, certificate)` entries, in order.
    pub fn certificates_iter(&self) -> (r: Vec<(Field, BatchCertificate)>)
        ensures
            r.len() == self@.certificates.len(),
            forall|i: int|
                0 <= i < r.len() ==> (#[trigger] r@[i]).0 == self@.certificates[i].0 && r@[i].1@
                    == self@.certificates[i].1,
    {
        let pairs = map_iter(&self.certificates);
        let mut r: Vec<(Field, BatchCertificate)> = Vec::new();
        let mut i: usize = 0;
        while i < pairs.len()
            invariant
                i <= pairs.len(),
                pairs.len() == self@.certificates.len(),
                forall|j: int|
                    0 <= j < pairs.len() ==> *(#[trigger] pairs@[j]).0 == self@.certificates[j].0 && pairs@[j].1@
                        == self@.certificates[j].1,
                r.len() == i,
                forall|j: int|
                    0 <= j < i ==> (#[trigger] r@[j]).0 == self@.certificates[j].0 && r@[j].1@
                        == self@.certificates[j].1,
            decreases pairs.len() - i,
        {
            let pair = pairs[i];
            assert(pair == pairs@[i as int]);
            r.push((*pair.0, pair.1.clone()));
            i += 1;
        }
        r
    }

    /// Returns the `(batch ID, round)` entries, in order.
    pub fn batch_ids_iter(&self) -> (r: Vec<(Field, u64)>)
        ensures
            r@ == self@.batch_ids,
    {
        let pairs = map_iter(&self.batch_ids);
        let mut r: Vec<(Field, u64)> = Vec::new();
        let mut i: usize = 0;
        while i < pairs.len()
            invariant
                i <= pairs.len(),
                pairs.len() == self@.batch_ids.len(),
                forall|j: int|
                    0 <= j < pairs.len() ==> *(#[trigger] pairs@[j]).0 == self@.batch_ids[j].0 && pairs@[j].1@
                        == self@.batch_ids[j].1,
                r@ =~= self@.batch_ids.take(i as int),
            decreases pairs.len() - i,
        {
            let pair = pairs[i];
            assert(pair == pairs@[i as int]);
            r.push((*pair.0, *pair.1));
            i += 1;
        }
        assert(self@.batch_ids.take(i as int) =~= self@.batch_ids);
        r
    }

    /// Returns the `(transmission ID, (transmission, certificate IDs))` entries, in order.
    pub fn transmissions_iter(&self) -> (r: Vec<(TransmissionID, (Transmission, Vec<Field>))>)
        ensures
            r.len() == self@.transmissions.len(),
            forall|i: int|
                0 <= i < r.len() ==> {
                    &&& (#[trigger] r@[i]).0 == TransmissionID::from_key(self@.transmissions[i].0)
                    &&& r@[i].1.0@ == self@.transmissions[i].1.0
                    &&& r@[i].1.1@ == self@.transmissions[i].1.1
                },
    {
        let pairs = map_iter(&self.transmissions);
        let mut r: Vec<(TransmissionID, (Transmission, Vec<Field>))> = Vec::new();
        let mut i: usize = 0;
        while i < pairs.len()
            invariant
                i <= pairs.len(),
                pairs.len() == self@.transmissions.len(),
                forall|j: int|
                    0 <= j < pairs.len() ==> *(#[trigger] pairs@[j]).0 == self@.transmissions[j].0 && pairs@[j].1@
                        == self@.transmissions[j].1,
                r.len() == i,
                forall|j: int|
                    0 <= j < i ==> {
                        &&& (#[trigger] r@[j]).0 == TransmissionID::from_key(self@.transmissions[j].0)
                        &&& r@[j].1.0@ == self@.transmissions[j].1.0
                        &&& r@[j].1.1@ == self@.transmissions[j].1.1
                    },
            decreases pairs.len() - i,
        {
            let pair = pairs[i];
            assert(pair == pairs@[i as int]);
            let items = set_iter(&pair.1.certificate_ids);
            let ghost model = pair.1@.1;
            let mut certificate_ids: Vec<Field> = Vec::new();
            let mut j: usize = 0;
            while j < items.len()
                invariant
                    j <= items.len(),
                    items.len() == model.len(),
                    forall|k: int| 0 <= k < items.len() ==> *(#[trigger] items@[k]) == model[k],
                    certificate_ids@ =~= model.take(j as int),
                decreases items.len() - j,
            {
                let id: Field = *items[j];
                assert(id == model[j as int]);
                certificate_ids.push(id);
                j += 1;
            }
            assert(certificate_ids@ =~= model);
            r.push((TransmissionID::from_key(*pair.0), (pair.1.transmission.clone(), certificate_ids)));
            i += 1;
        }
        r
    }
}

/// One more transmission adds its own key to those that are declared.
proof fn lemma_declares_step(ids: Seq<TransmissionID>, i: int)
    requires
        0 <= i < ids.len(),
    ensures
        forall|k: TransmissionKey| #[trigger]
            declares(ids.take(i + 1), k) <==> (declares(ids.take(i), k) || ids[i].key() == k),
{
    let before = ids.take(i);
    let after = ids.take(i + 1);
    assert forall|k: TransmissionKey| #[trigger] declares(after, k) <==> (declares(before, k) || ids[i].key() == k) by {
        if declares(before, k) {
            let j = choose|j: int| 0 <= j < before.len() && (#[trigger] before[j]).key() == k;
            assert(after[j].key() == k);
        }
        if ids[i].key() == k {
            assert(after[i].key() == k);
        }
        if declares(after, k) {
            let j = choose|j: int| 0 <= j < after.len() && (#[trigger] after[j]).key() == k;
            if j < i {
                assert(before[j].key() == k);
            }
        }
    }
}

/// A transmission that is there stays there when a certificate is attached to one.
proof fn lemma_attach_keeps_keys(
    transmissions: Transmissions,
    key: TransmissionKey,
    missing: Provided,
    certificate_id: Field,
)
    ensures
        forall|k: TransmissionKey|
            has_key(transmissions, k) ==> #[trigger] has_key(attach(transmissions, key, missing, certificate_id), k),
{
    let after = attach(transmissions, key, missing, certificate_id);
    assert forall|k: TransmissionKey| has_key(transmissions, k) implies #[trigger] has_key(after, k) by {
        let p = position(transmissions, k);
        assert(transmissions[p].0 == k);
        assert(after[p].0 == k);
    }
}

} // verus!
