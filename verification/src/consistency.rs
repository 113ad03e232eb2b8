//! What always holds of the storage: its maps agree with each other.

use crate::batch::CertificateModel;
use crate::ids::{lemma_keys_differ, Field, RoundEntry, TransmissionID, TransmissionKey};
use crate::model::{attach_all, declares, detach_all, drop_entry, entries_of};
use crate::model::{minus, Provided, StorageModel, Transmissions};
use crate::ordered::{as_map, distinct_keys, has_key, lemma_lookup_as_map, lemma_set_insert};
use crate::ordered::{lemma_set_swap_remove, lemma_swap_remove, lemma_upsert};
use crate::ordered::{set_insert, set_swap_remove, swap_remove};
use crate::transmission::TransmissionModel;
use vstd::prelude::*;

verus! {

impl StorageModel {
    /// The entries by their round.
    #[verifier::inline]
    pub open spec fn round_map(self) -> Map<u64, Seq<RoundEntry>> {
        as_map(self.rounds)
    }

    /// The certificates by their ID.
    #[verifier::inline]
    pub open spec fn certificate_map(self) -> Map<Field, CertificateModel> {
        as_map(self.certificates)
    }

    /// The rounds by their batch ID.
    #[verifier::inline]
    pub open spec fn batch_map(self) -> Map<Field, u64> {
        as_map(self.batch_ids)
    }

    /// The transmissions and the IDs of their certificates by their key.
    #[verifier::inline]
    pub open spec fn transmission_map(self) -> Map<TransmissionKey, (TransmissionModel, Seq<Field>)> {
        as_map(self.transmissions)
    }

    /// Each map by itself is in order: nothing occurs twice, no round and no transmission
    /// is without a certificate, and a certificate stands under its own ID.
    pub open spec fn wf(self) -> bool {
        &&& distinct_keys(self.rounds)
        &&& distinct_keys(self.certificates)
        &&& distinct_keys(self.batch_ids)
        &&& distinct_keys(self.transmissions)
        &&& forall|r: u64| #[trigger]
            self.round_map().contains_key(r) ==> self.round_map()[r].no_duplicates() && self.round_map()[r].len() > 0
        &&& forall|id: Field| #[trigger]
            self.certificate_map().contains_key(id) ==> self.certificate_map()[id].certificate_id == id
                && self.certificate_map()[id].header.wf()
        &&& forall|k: TransmissionKey| #[trigger]
            self.transmission_map().contains_key(k) ==> self.transmission_map()[k].1.no_duplicates()
                && self.transmission_map()[k].1.len() > 0
    }

    /// Each certificate has its entry in its round, its batch, and its ID with each of its
    /// transmissions.
    pub open spec fn certificates_indexed(self) -> bool {
        forall|id: Field| #[trigger]
            self.certificate_map().contains_key(id) ==> {
                let c = self.certificate_map()[id];
                &&& self.round_map().contains_key(c.header.round)
                &&& self.round_map()[c.header.round].contains(c.entry())
                &&& self.batch_map().contains_key(c.header.batch_id)
                &&& self.batch_map()[c.header.batch_id] == c.header.round
                &&& forall|k: TransmissionKey| #[trigger]
                    declares(c.header.transmission_ids, k) ==> self.transmission_map().contains_key(k)
                        && self.transmission_map()[k].1.contains(id)
            }
    }

    /// Each entry of a round is that of a certificate of the round.
    pub open spec fn entries_backed(self) -> bool {
        forall|r: u64, e: RoundEntry|
            self.round_map().contains_key(r) && #[trigger] self.round_map()[r].contains(e) ==> {
                &&& self.certificate_map().contains_key(e.0)
                &&& self.certificate_map()[e.0].entry() == e
                &&& self.certificate_map()[e.0].header.round == r
            }
    }

    /// Whether the certificate under `id` is for the batch `b`.
    pub open spec fn is_for_batch(self, id: Field, b: Field) -> bool {
        self.certificate_map().contains_key(id) && self.certificate_map()[id].header.batch_id == b
    }

    /// Each batch is that of a certificate, and of one only.
    pub open spec fn batches_backed(self) -> bool {
        &&& forall|b: Field| #[trigger]
            self.batch_map().contains_key(b) ==> exists|id: Field| #[trigger] self.is_for_batch(id, b)
        &&& forall|b: Field, id1: Field, id2: Field|
            #[trigger] self.is_for_batch(id1, b) && #[trigger] self.is_for_batch(id2, b) ==> id1 == id2
    }

    /// Each certificate of a transmission is there, and declares the transmission.
    pub open spec fn transmissions_backed(self) -> bool {
        forall|k: TransmissionKey, id: Field|
            self.transmission_map().contains_key(k) && #[trigger] self.transmission_map()[k].1.contains(id) ==> {
                &&& self.certificate_map().contains_key(id)
                &&& declares(self.certificate_map()[id].header.transmission_ids, k)
            }
    }

    /// The maps of the storage agree with each other.
    pub open spec fn consistent(self) -> bool {
        &&& self.wf()
        &&& self.certificates_indexed()
        &&& self.entries_backed()
        &&& self.batches_backed()
        &&& self.transmissions_backed()
    }

    /// The GC round is as far behind the current round as rounds are kept.
    pub open spec fn gc_on_time(self) -> bool {
        self.gc_round == minus(self.current_round, self.max_gc_rounds)
    }

    /// The storage is in order.
    pub open spec fn valid(self) -> bool {
        self.consistent() && self.gc_on_time()
    }

    /// No certificate is at or below the GC round.
    pub open spec fn above_gc(self) -> bool {
        forall|id: Field| #[trigger]
            self.certificate_map().contains_key(id) ==> self.certificate_map()[id].header.round > self.gc_round
    }

    /// No author has two certificates in one round.
    pub open spec fn one_per_author(self) -> bool {
        forall|id1: Field, id2: Field|
            #[trigger] self.certificate_map().contains_key(id1) && #[trigger] self.certificate_map().contains_key(id2)
                && self.certificate_map()[id1].header.round == self.certificate_map()[id2].header.round
                && self.certificate_map()[id1].header.author == self.certificate_map()[id2].header.author ==> id1
                == id2
    }

    /// The storage is past the genesis round.
    pub open spec fn has_started(self) -> bool {
        self.current_round >= 1
    }

    /// The storage is as requests that are checked leave it: past the genesis round, in
    /// order, free of certificates that garbage collection owes to have removed, and with
    /// one certificate at most of each author in each round.
    pub open spec fn sound(self) -> bool {
        self.has_started() && self.valid() && self.above_gc() && self.one_per_author()
    }

    /// Whether the certificate is new to the storage: neither its ID nor its batch is there.
    pub open spec fn is_new(self, certificate: CertificateModel) -> bool {
        !has_key(self.certificates, certificate.certificate_id) && !has_key(
            self.batch_ids,
            certificate.header.batch_id,
        )
    }

    /// Whether nothing of the certificate is in the storage: it is new, its round has no entry
    /// of it, and no transmission has its ID.
    pub open spec fn is_absent(self, certificate: CertificateModel) -> bool {
        &&& self.is_new(certificate)
        &&& !entries_of(self.rounds, certificate.header.round).contains(certificate.entry())
        &&& forall|k: TransmissionKey| #[trigger]
            self.transmission_map().contains_key(k) ==> !self.transmission_map()[k].1.contains(
                certificate.certificate_id,
            )
    }

    /// Whether each of the given transmissions is stored or provided.
    pub open spec fn covers(self, ids: Seq<TransmissionID>, missing: Provided) -> bool {
        forall|k: TransmissionKey| #[trigger]
            declares(ids, k) ==> has_key(self.transmissions, k) || missing.contains_key(k)
    }
}

/// The certificates of a transmission once a certificate is attached.
pub open spec fn attached(
    before: Map<TransmissionKey, (TransmissionModel, Seq<Field>)>,
    key: TransmissionKey,
    missing: Provided,
    certificate_id: Field,
) -> (TransmissionModel, Seq<Field>) {
    if before.contains_key(key) {
        (before[key].0, set_insert(before[key].1, certificate_id))
    } else {
        (missing[key], seq![certificate_id])
    }
}

/// The last of distinct transmissions has a key that none before it has.
pub proof fn lemma_last_is_new(ids: Seq<TransmissionID>)
    requires
        ids.no_duplicates(),
        ids.len() > 0,
    ensures
        ids.drop_last().no_duplicates(),
        !declares(ids.drop_last(), ids.last().key()),
        forall|k: TransmissionKey| #[trigger]
            declares(ids, k) <==> declares(ids.drop_last(), k) || k == ids.last().key(),
{
    let d = ids.drop_last();
    let n = ids.len() - 1;
    if declares(d, ids.last().key()) {
        let i = choose|i: int| 0 <= i < d.len() && (#[trigger] d[i]).key() == ids.last().key();
        lemma_keys_differ(d[i], ids.last());
        assert(ids[i] == ids[n]);
    }
    assert forall|k: TransmissionKey| #[trigger] declares(ids, k) <==> declares(d, k) || k == ids.last().key() by {
        if declares(d, k) {
            let i = choose|i: int| 0 <= i < d.len() && (#[trigger] d[i]).key() == k;
            assert(ids[i].key() == k);
        }
        if k == ids.last().key() {
            assert(ids[n].key() == k);
        }
        if declares(ids, k) {
            let i = choose|i: int| 0 <= i < ids.len() && (#[trigger] ids[i]).key() == k;
            if i < n {
                assert(d[i].key() == k);
            }
        }
    }
}

/// What attaching a certificate to its transmissions does to their map.
pub proof fn lemma_attach_all(
    transmissions: Transmissions,
    ids: Seq<TransmissionID>,
    missing: Provided,
    certificate_id: Field,
)
    requires
        distinct_keys(transmissions),
        ids.no_duplicates(),
    ensures
        distinct_keys(attach_all(transmissions, ids, missing, certificate_id)),
        ({
            let before = as_map(transmissions);
            let after = as_map(attach_all(transmissions, ids, missing, certificate_id));
            &&& forall|k: TransmissionKey| #[trigger]
                after.contains_key(k) <==> before.contains_key(k) || declares(ids, k)
            &&& forall|k: TransmissionKey|
                #![trigger after[k]]
                declares(ids, k) ==> after[k] == attached(before, k, missing, certificate_id)
            &&& forall|k: TransmissionKey|
                #![trigger after[k]]
                !declares(ids, k) && before.contains_key(k) ==> after[k] == before[k]
        }),
    decreases ids.len(),
{
    if ids.len() > 0 {
        let d = ids.drop_last();
        lemma_last_is_new(ids);
        lemma_attach_all(transmissions, d, missing, certificate_id);
        let mid = attach_all(transmissions, d, missing, certificate_id);
        let key = ids.last().key();
        lemma_lookup_as_map(mid, key);
        lemma_upsert(mid, key, attached(as_map(mid), key, missing, certificate_id));
        assert(as_map(mid).contains_key(key) <==> as_map(transmissions).contains_key(key));
        assert(as_map(mid).contains_key(key) ==> as_map(mid)[key] == as_map(transmissions)[key]);
    }
}

/// What detaching a certificate from its transmissions does to their map.
pub proof fn lemma_detach_all(transmissions: Transmissions, ids: Seq<TransmissionID>, certificate_id: Field)
    requires
        distinct_keys(transmissions),
        ids.no_duplicates(),
    ensures
        distinct_keys(detach_all(transmissions, ids, certificate_id)),
        ({
            let before = as_map(transmissions);
            let after = as_map(detach_all(transmissions, ids, certificate_id));
            &&& forall|k: TransmissionKey| #[trigger]
                after.contains_key(k) <==> before.contains_key(k) && !(declares(ids, k) && set_swap_remove(
                    before[k].1,
                    certificate_id,
                ).len() == 0)
            &&& forall|k: TransmissionKey|
                #![trigger after[k]]
                after.contains_key(k) && declares(ids, k) ==> after[k] == (
                    before[k].0,
                    set_swap_remove(before[k].1, certificate_id),
                )
            &&& forall|k: TransmissionKey|
                #![trigger after[k]]
                after.contains_key(k) && !declares(ids, k) ==> after[k] == before[k]
        }),
    decreases ids.len(),
{
    if ids.len() > 0 {
        let d = ids.drop_last();
        lemma_last_is_new(ids);
        lemma_detach_all(transmissions, d, certificate_id);
        let mid = detach_all(transmissions, d, certificate_id);
        let key = ids.last().key();
        lemma_lookup_as_map(mid, key);
        assert(as_map(mid).contains_key(key) <==> as_map(transmissions).contains_key(key));
        if has_key(mid, key) {
            let record = as_map(mid)[key];
            assert(record == as_map(transmissions)[key]);
            lemma_swap_remove(mid, key);
            lemma_upsert(mid, key, (record.0, set_swap_remove(record.1, certificate_id)));
        }
    }
}

/// What inserting a certificate does to the maps.
pub proof fn lemma_insert_maps(m: StorageModel, certificate: CertificateModel, missing: Provided)
    requires
        m.wf(),
        certificate.header.wf(),
    ensures
        m.insert(certificate, missing).wf(),
        m.insert(certificate, missing).certificate_map() == m.certificate_map().insert(
            certificate.certificate_id,
            certificate,
        ),
        m.insert(certificate, missing).batch_map() == m.batch_map().insert(
            certificate.header.batch_id,
            certificate.header.round,
        ),
        m.insert(certificate, missing).round_map() == m.round_map().insert(
            certificate.header.round,
            set_insert(entries_of(m.rounds, certificate.header.round), certificate.entry()),
        ),
{
    let header = certificate.header;
    let after = m.insert(certificate, missing);
    let entries = entries_of(m.rounds, header.round);
    lemma_lookup_as_map(m.rounds, header.round);
    lemma_upsert(m.certificates, certificate.certificate_id, certificate);
    lemma_upsert(m.batch_ids, header.batch_id, header.round);
    lemma_upsert(m.rounds, header.round, set_insert(entries, certificate.entry()));
    lemma_set_insert(entries, certificate.entry());
    assert(set_insert(entries, certificate.entry()).len() > 0);
    lemma_attach_all(m.transmissions, header.transmission_ids, missing, certificate.certificate_id);
    assert forall|k: TransmissionKey| #[trigger] after.transmission_map().contains_key(k) implies {
        &&& after.transmission_map()[k].1.no_duplicates()
        &&& after.transmission_map()[k].1.len() > 0
    } by {
        if declares(header.transmission_ids, k) && m.transmission_map().contains_key(k) {
            lemma_set_insert(m.transmission_map()[k].1, certificate.certificate_id);
        }
    }
}

/// What removing a certificate that is there does to the maps.
pub proof fn lemma_remove_maps(m: StorageModel, certificate_id: Field)
    requires
        m.wf(),
        m.certificate_map().contains_key(certificate_id),
    ensures
        m.remove(certificate_id).wf(),
        m.remove(certificate_id).certificate_map() == m.certificate_map().remove(certificate_id),
        ({
            let certificate = m.certificate_map()[certificate_id];
            let left = set_swap_remove(entries_of(m.rounds, certificate.header.round), certificate.entry());
            &&& m.remove(certificate_id) == (StorageModel {
                rounds: drop_entry(m.rounds, certificate.header.round, certificate.entry()),
                certificates: swap_remove(m.certificates, certificate_id),
                batch_ids: swap_remove(m.batch_ids, certificate.header.batch_id),
                transmissions: detach_all(m.transmissions, certificate.header.transmission_ids, certificate_id),
                ..m
            })
            &&& m.remove(certificate_id).batch_map() == m.batch_map().remove(certificate.header.batch_id)
            &&& m.remove(certificate_id).round_map() == if left.len() == 0 {
                m.round_map().remove(certificate.header.round)
            } else {
                m.round_map().insert(certificate.header.round, left)
            }
        }),
{
    lemma_lookup_as_map(m.certificates, certificate_id);
    let certificate = m.certificate_map()[certificate_id];
    let header = certificate.header;
    let after = m.remove(certificate_id);
    let entries = entries_of(m.rounds, header.round);
    let left = set_swap_remove(entries, certificate.entry());
    lemma_lookup_as_map(m.rounds, header.round);
    lemma_swap_remove(m.certificates, certificate_id);
    lemma_swap_remove(m.batch_ids, header.batch_id);
    lemma_swap_remove(m.rounds, header.round);
    lemma_upsert(m.rounds, header.round, left);
    lemma_set_swap_remove(entries, certificate.entry());
    lemma_detach_all(m.transmissions, header.transmission_ids, certificate_id);
    assert forall|k: TransmissionKey| #[trigger] after.transmission_map().contains_key(k) implies {
        &&& after.transmission_map()[k].1.no_duplicates()
        &&& after.transmission_map()[k].1.len() > 0
    } by {
        lemma_set_swap_remove(m.transmission_map()[k].1, certificate_id);
    }
}

/// Inserting a new certificate keeps the maps in agreement.
pub proof fn lemma_insert_consistent(m: StorageModel, certificate: CertificateModel, missing: Provided)
    requires
        m.consistent(),
        certificate.header.wf(),
        m.is_new(certificate),
    ensures
        m.insert(certificate, missing).consistent(),
{
    let header = certificate.header;
    let new_id = certificate.certificate_id;
    let after = m.insert(certificate, missing);
    lemma_insert_maps(m, certificate, missing);
    lemma_lookup_as_map(m.certificates, new_id);
    lemma_lookup_as_map(m.batch_ids, header.batch_id);
    lemma_lookup_as_map(m.rounds, header.round);
    lemma_attach_all(m.transmissions, header.transmission_ids, missing, new_id);
    let entries = entries_of(m.rounds, header.round);
    lemma_set_insert(entries, certificate.entry());
    assert forall|id: Field| #[trigger] after.certificate_map().contains_key(id) implies {
        let c = after.certificate_map()[id];
        &&& after.round_map().contains_key(c.header.round)
        &&& after.round_map()[c.header.round].contains(c.entry())
        &&& after.batch_map().contains_key(c.header.batch_id)
        &&& after.batch_map()[c.header.batch_id] == c.header.round
        &&& forall|k: TransmissionKey| #[trigger]
            declares(c.header.transmission_ids, k) ==> after.transmission_map().contains_key(k)
                && after.transmission_map()[k].1.contains(id)
    } by {
        let c = after.certificate_map()[id];
        if id != new_id {
            assert(m.certificate_map().contains_key(id));
            assert(m.batch_map().contains_key(c.header.batch_id));
        }
        assert forall|k: TransmissionKey| #[trigger]
            declares(c.header.transmission_ids, k) implies after.transmission_map().contains_key(k)
            && after.transmission_map()[k].1.contains(id) by {
            if declares(header.transmission_ids, k) {
                if m.transmission_map().contains_key(k) {
                    lemma_set_insert(m.transmission_map()[k].1, new_id);
                } else {
                    assert(seq![new_id][0] == new_id);
                }
            }
        }
    }
    assert forall|r: u64, e: RoundEntry|
        after.round_map().contains_key(r) && #[trigger] after.round_map()[r].contains(e) implies {
        &&& after.certificate_map().contains_key(e.0)
        &&& after.certificate_map()[e.0].entry() == e
        &&& after.certificate_map()[e.0].header.round == r
    } by {
        if r == header.round && e == certificate.entry() {
        } else {
            assert(m.round_map().contains_key(r) && m.round_map()[r].contains(e));
        }
    }
    assert forall|b: Field| #[trigger] after.batch_map().contains_key(b) implies exists|id: Field| #[trigger]
        after.is_for_batch(id, b) by {
        if b == header.batch_id {
            assert(after.is_for_batch(new_id, b));
        } else {
            let id = choose|id: Field| #[trigger] m.is_for_batch(id, b);
            assert(after.is_for_batch(id, b));
        }
    }
    assert forall|b: Field, id1: Field, id2: Field|
        #[trigger] after.is_for_batch(id1, b) && #[trigger] after.is_for_batch(id2, b) implies id1 == id2 by {
        if id1 != new_id {
            assert(m.is_for_batch(id1, b));
        }
        if id2 != new_id {
            assert(m.is_for_batch(id2, b));
        }
    }
    assert forall|k: TransmissionKey, id: Field|
        after.transmission_map().contains_key(k) && #[trigger] after.transmission_map()[k].1.contains(id) implies {
        &&& after.certificate_map().contains_key(id)
        &&& declares(after.certificate_map()[id].header.transmission_ids, k)
    } by {
        if declares(header.transmission_ids, k) {
            if m.transmission_map().contains_key(k) {
                lemma_set_insert(m.transmission_map()[k].1, new_id);
                if id != new_id {
                    assert(m.transmission_map()[k].1.contains(id));
                }
            } else {
                assert(seq![new_id].contains(id));
            }
        } else {
            assert(m.transmission_map()[k].1.contains(id));
        }
    }
}

/// Removing a certificate keeps the maps in agreement.
pub proof fn lemma_remove_consistent(m: StorageModel, certificate_id: Field)
    requires
        m.consistent(),
    ensures
        m.remove(certificate_id).consistent(),
{
    lemma_lookup_as_map(m.certificates, certificate_id);
    if m.certificate_map().contains_key(certificate_id) {
        let certificate = m.certificate_map()[certificate_id];
        let header = certificate.header;
        let after = m.remove(certificate_id);
        lemma_remove_maps(m, certificate_id);
        lemma_lookup_as_map(m.rounds, header.round);
        lemma_detach_all(m.transmissions, header.transmission_ids, certificate_id);
        let entries = entries_of(m.rounds, header.round);
        let left = set_swap_remove(entries, certificate.entry());
        lemma_set_swap_remove(entries, certificate.entry());
        assert forall|id: Field| #[trigger] after.certificate_map().contains_key(id) implies {
            let c = after.certificate_map()[id];
            &&& after.round_map().contains_key(c.header.round)
            &&& after.round_map()[c.header.round].contains(c.entry())
            &&& after.batch_map().contains_key(c.header.batch_id)
            &&& after.batch_map()[c.header.batch_id] == c.header.round
            &&& forall|k: TransmissionKey| #[trigger]
                declares(c.header.transmission_ids, k) ==> after.transmission_map().contains_key(k)
                    && after.transmission_map()[k].1.contains(id)
        } by {
            let c = after.certificate_map()[id];
            assert(m.certificate_map().contains_key(id));
            assert(m.is_for_batch(id, c.header.batch_id));
            assert(m.is_for_batch(certificate_id, header.batch_id));
            if c.header.round == header.round {
                assert(left.contains(c.entry()));
            }
            assert forall|k: TransmissionKey| #[trigger]
                declares(c.header.transmission_ids, k) implies after.transmission_map().contains_key(k)
                && after.transmission_map()[k].1.contains(id) by {
                lemma_set_swap_remove(m.transmission_map()[k].1, certificate_id);
                assert(set_swap_remove(m.transmission_map()[k].1, certificate_id).contains(id));
            }
        }
        assert forall|r: u64, e: RoundEntry|
            after.round_map().contains_key(r) && #[trigger] after.round_map()[r].contains(e) implies {
            &&& after.certificate_map().contains_key(e.0)
            &&& after.certificate_map()[e.0].entry() == e
            &&& after.certificate_map()[e.0].header.round == r
        } by {
            assert(m.round_map()[r].contains(e));
        }
        assert forall|b: Field| #[trigger] after.batch_map().contains_key(b) implies exists|id: Field| #[trigger]
            after.is_for_batch(id, b) by {
            let id = choose|id: Field| #[trigger] m.is_for_batch(id, b);
            assert(after.is_for_batch(id, b));
        }
        assert forall|b: Field, id1: Field, id2: Field|
            #[trigger] after.is_for_batch(id1, b) && #[trigger] after.is_for_batch(id2, b) implies id1 == id2 by {
            assert(m.is_for_batch(id1, b) && m.is_for_batch(id2, b));
        }
        assert forall|k: TransmissionKey, id: Field|
            after.transmission_map().contains_key(k) && #[trigger] after.transmission_map()[k].1.contains(id) implies {
            &&& after.certificate_map().contains_key(id)
            &&& declares(after.certificate_map()[id].header.transmission_ids, k)
        } by {
            lemma_set_swap_remove(m.transmission_map()[k].1, certificate_id);
            assert(m.transmission_map()[k].1.contains(id));
            if !declares(header.transmission_ids, k) {
                assert(id != certificate_id);
            }
        }
    }
}

} // verus!
