//! What holds of the storage over several requests.

use crate::batch::{CertificateModel, HeaderModel};
use crate::collection::{lemma_advance, lemma_remove_shrinks, lemma_stored};
use crate::committee::{stake_sum, CommitteeModel};
use crate::consistency::{attached, lemma_attach_all, lemma_detach_all, lemma_insert_consistent};
use crate::consistency::{lemma_insert_maps, lemma_remove_consistent, lemma_remove_maps};
use crate::context::ContextModel;
use crate::error::StorageError;
use crate::ids::{Address, Field, RoundEntry, TransmissionID, TransmissionKey};
use crate::model::{declares, entries_of, first_outsider, minus, Provided, StorageModel};
use crate::ordered::{distinct, has_key, lemma_distinct, lemma_lookup_as_map, lemma_position};
use crate::ordered::{lemma_set_insert, lemma_set_swap_remove, lemma_swap_remove_new, lemma_upsert};
use crate::ordered::{lemma_upsert_same, lookup, set_swap_remove};
use crate::undo::{lemma_attach_again, lemma_detach_undoes_attach, lemma_drop_undoes_add};
use vstd::prelude::*;
use vstd::set_lib::{lemma_int_range, lemma_len_subset, set_int_range};

verus! {

/// Removing a certificate gives back the storage as it was before it was inserted, the order
/// of its entries included, where nothing of it was there: where the maps agree, it is enough
/// that it was new.
pub proof fn law_remove_undoes_insert(m: StorageModel, certificate: CertificateModel, missing: Provided)
    requires
        m.wf(),
        certificate.header.wf(),
        m.is_absent(certificate) || m.consistent() && m.is_new(certificate),
    ensures
        m.insert(certificate, missing).remove(certificate.certificate_id) == m,
{
    let header = certificate.header;
    let id = certificate.certificate_id;
    let after = m.insert(certificate, missing);
    lemma_lookup_as_map(m.certificates, id);
    lemma_lookup_as_map(m.rounds, header.round);
    lemma_upsert(m.certificates, id, certificate);
    lemma_swap_remove_new(m.certificates, id, certificate);
    lemma_swap_remove_new(m.batch_ids, header.batch_id, header.round);
    let entries = entries_of(m.rounds, header.round);
    if entries.contains(certificate.entry()) {
        assert(m.round_map()[header.round].contains(certificate.entry()));
    }
    lemma_drop_undoes_add(m.rounds, header.round, certificate.entry());
    assert forall|i: int| 0 <= i < m.transmissions.len() implies !(#[trigger] m.transmissions[i]).1.1.contains(id)
        && m.transmissions[i].1.1.len() > 0 by {
        lemma_position(m.transmissions, i);
        let k = m.transmissions[i].0;
        assert(m.transmission_map().contains_key(k));
        if m.transmissions[i].1.1.contains(id) {
            assert(m.transmission_map()[k].1.contains(id));
        }
    }
    lemma_detach_undoes_attach(m.transmissions, header.transmission_ids, missing, id);
    assert(after.remove(id) =~= m);
}

/// Inserting a certificate that is stored changes nothing, whatever transmissions come with it.
pub proof fn law_insert_again_changes_nothing(m: StorageModel, certificate: CertificateModel, missing: Provided)
    requires
        m.consistent(),
        lookup(m.certificates, certificate.certificate_id) == Some(certificate),
    ensures
        m.insert(certificate, missing) == m,
{
    let header = certificate.header;
    let id = certificate.certificate_id;
    lemma_lookup_as_map(m.certificates, id);
    assert(m.certificate_map().contains_key(id));
    lemma_lookup_as_map(m.rounds, header.round);
    lemma_lookup_as_map(m.batch_ids, header.batch_id);
    lemma_upsert_same(m.certificates, id, certificate);
    lemma_upsert_same(m.batch_ids, header.batch_id, header.round);
    lemma_upsert_same(m.rounds, header.round, entries_of(m.rounds, header.round));
    let ids = header.transmission_ids;
    assert forall|i: int| 0 <= i < ids.len() implies (lookup(m.transmissions, (#[trigger] ids[i]).key()) matches Some(
        record,
    ) && record.1.contains(id)) by {
        assert(declares(ids, ids[i].key()));
        lemma_lookup_as_map(m.transmissions, ids[i].key());
    }
    lemma_attach_again(m.transmissions, ids, missing, id);
    assert(m.insert(certificate, missing) =~= m);
}

/// Inserting a certificate twice is inserting it once, whatever transmissions come with it
/// the second time.
pub proof fn law_insert_twice_is_insert_once(
    m: StorageModel,
    certificate: CertificateModel,
    missing: Provided,
    later_missing: Provided,
)
    requires
        m.wf(),
        certificate.header.wf(),
    ensures
        m.insert(certificate, missing).insert(certificate, later_missing) == m.insert(certificate, missing),
{
    let header = certificate.header;
    let id = certificate.certificate_id;
    let after = m.insert(certificate, missing);
    lemma_insert_maps(m, certificate, missing);
    lemma_lookup_as_map(after.certificates, id);
    lemma_lookup_as_map(after.batch_ids, header.batch_id);
    lemma_lookup_as_map(after.rounds, header.round);
    lemma_lookup_as_map(m.rounds, header.round);
    lemma_upsert_same(after.certificates, id, certificate);
    lemma_upsert_same(after.batch_ids, header.batch_id, header.round);
    lemma_set_insert(entries_of(m.rounds, header.round), certificate.entry());
    lemma_upsert_same(after.rounds, header.round, entries_of(after.rounds, header.round));
    let ids = header.transmission_ids;
    lemma_attach_all(m.transmissions, ids, missing, id);
    assert forall|i: int| 0 <= i < ids.len() implies (lookup(
        after.transmissions,
        (#[trigger] ids[i]).key(),
    ) matches Some(record) && record.1.contains(id)) by {
        let k = ids[i].key();
        assert(declares(ids, k));
        lemma_lookup_as_map(after.transmissions, k);
        assert(after.transmission_map()[k] == attached(m.transmission_map(), k, missing, id));
        if m.transmission_map().contains_key(k) {
            lemma_set_insert(m.transmission_map()[k].1, id);
        } else {
            assert(seq![id][0] == id);
        }
    }
    lemma_attach_again(after.transmissions, ids, later_missing, id);
    assert(after.insert(certificate, later_missing) =~= after);
}

/// The storage is sound from the start, in any round past the genesis round.
pub proof fn law_initial_is_sound(current_round: u64, max_gc_rounds: u64)
    requires
        current_round >= 1,
    ensures
        StorageModel::initial(current_round, max_gc_rounds).sound(),
{
    let m = StorageModel::initial(current_round, max_gc_rounds);
    assert forall|id: Field, b: Field| !(#[trigger] m.is_for_batch(id, b)) by {}
}

/// Moving to a later round keeps the storage valid, and sound.
pub proof fn law_advance_keeps_sound(m: StorageModel, round: u64)
    requires
        m.valid(),
        m.current_round <= round,
    ensures
        m.advance(round).valid(),
        m.sound() ==> m.advance(round).sound(),
{
    lemma_advance(m, round);
}

/// Inserting a certificate that is new, or is stored, keeps the storage valid.
pub proof fn law_insert_keeps_valid(m: StorageModel, certificate: CertificateModel, missing: Provided)
    requires
        m.valid(),
        certificate.header.wf(),
        m.is_new(certificate) || lookup(m.certificates, certificate.certificate_id) == Some(certificate),
    ensures
        m.insert(certificate, missing).valid(),
{
    if m.is_new(certificate) {
        lemma_insert_consistent(m, certificate, missing);
    } else {
        law_insert_again_changes_nothing(m, certificate, missing);
    }
}

/// Removing a certificate keeps the storage valid, and sound.
pub proof fn law_remove_keeps_sound(m: StorageModel, certificate_id: Field)
    requires
        m.valid(),
    ensures
        m.remove(certificate_id).valid(),
        m.sound() ==> m.remove(certificate_id).sound(),
{
    lemma_remove_consistent(m, certificate_id);
    lemma_remove_shrinks(m, certificate_id);
}

/// Inserting a certificate upon request keeps the storage valid, and sound: no author gets
/// a second certificate in a round, and none comes in at or below the GC round.
pub proof fn law_accepted_insert_keeps_sound(
    m: StorageModel,
    certificate: CertificateModel,
    signers: Seq<Address>,
    provided: Provided,
    context: ContextModel,
)
    requires
        m.valid(),
        certificate.header.wf(),
        m.try_insert(certificate, signers, provided, context) is Ok,
    ensures
        m.try_insert(certificate, signers, provided, context).unwrap().valid(),
        m.sound() ==> m.try_insert(certificate, signers, provided, context).unwrap().sound(),
{
    let header = certificate.header;
    let missing = m.check_certificate(certificate, signers, provided, context).unwrap();
    let after = m.insert(certificate, missing);
    law_insert_keeps_valid(m, certificate, missing);
    if m.sound() {
        lemma_insert_maps(m, certificate, missing);
        assert forall|id: Field| #[trigger] m.certificate_map().contains_key(id) && m.certificate_map()[id].header.round
            == header.round implies m.certificate_map()[id].header.author != header.author by {
            law_has_author(m, header.round, header.author);
            if m.certificate_map()[id].header.author == header.author {
                assert(is_by(m, id, header.round, header.author));
            }
        }
        assert(after.one_per_author());
        assert(after.above_gc());
    }
}

/// Syncing the certificate of a block keeps the storage valid, and sound.
pub proof fn law_sync_keeps_sound(
    m: StorageModel,
    certificate: CertificateModel,
    signers: Seq<Address>,
    block: Provided,
    ledger: Provided,
    context: ContextModel,
)
    requires
        m.valid(),
        certificate.header.wf(),
        m.try_sync(certificate, signers, block, ledger, context) is Ok,
    ensures
        m.try_sync(certificate, signers, block, ledger, context).unwrap().valid(),
        m.sound() ==> m.try_sync(certificate, signers, block, ledger, context).unwrap().sound(),
{
    let fetched = m.fetched(certificate.header.transmission_ids, block, ledger);
    if !m.passes_over(certificate) {
        law_accepted_insert_keeps_sound(m, certificate, signers, fetched, context);
    }
}

/// Whether two answers of the ledger say the same of the given transmissions.
pub open spec fn agree_on(a: Provided, b: Provided, ids: Seq<TransmissionID>) -> bool {
    forall|i: int|
        0 <= i < ids.len() ==> {
            &&& a.contains_key((#[trigger] ids[i]).key()) == b.contains_key(ids[i].key())
            &&& a.contains_key(ids[i].key()) ==> a[ids[i].key()] == b[ids[i].key()]
        }
}

/// What syncing the certificate of a block does rests on what the ledger says of the
/// transmissions that are to be requested, and on nothing else that it says.
pub proof fn law_requests_suffice(
    m: StorageModel,
    certificate: CertificateModel,
    signers: Seq<Address>,
    block: Provided,
    ledger: Provided,
    other: Provided,
    context: ContextModel,
)
    requires
        agree_on(ledger, other, m.to_request(certificate.header.transmission_ids, block)),
    ensures
        m.try_sync(certificate, signers, block, ledger, context) == m.try_sync(
            certificate,
            signers,
            block,
            other,
            context,
        ),
{
    let ids = certificate.header.transmission_ids;
    let requested = m.to_request(ids, block);
    assert forall|k: TransmissionKey| declares(ids, k) && m.wants(k) && !block.contains_key(k) implies {
        &&& #[trigger] ledger.contains_key(k) == other.contains_key(k)
        &&& ledger.contains_key(k) ==> ledger[k] == other[k]
    } by {
        let i = choose|i: int| 0 <= i < ids.len() && (#[trigger] ids[i]).key() == k;
        lemma_is_requested(m, ids, block, i);
        let j = requested.index_of(ids[i]);
        assert(requested[j].key() == k);
    }
    assert(m.fetched(ids, block, ledger) =~= m.fetched(ids, block, other));
}

/// A transmission that is to be fetched and that the block does not have is requested.
proof fn lemma_is_requested(m: StorageModel, ids: Seq<TransmissionID>, block: Provided, i: int)
    requires
        0 <= i < ids.len(),
        m.wants(ids[i].key()),
        !block.contains_key(ids[i].key()),
    ensures
        m.to_request(ids, block).contains(ids[i]),
    decreases ids.len(),
{
    let d = ids.drop_last();
    let before = m.to_request(d, block);
    let after = m.to_request(ids, block);
    if i < d.len() {
        lemma_is_requested(m, d, block, i);
        let j = before.index_of(d[i]);
        assert(after[j] == ids[i]);
    } else {
        assert(after[before.len() as int] == ids[i]);
    }
}

/// What the check of a batch header answers rests on the committee of the previous round
/// only where that is a round of interest.
pub proof fn law_committees_suffice(
    m: StorageModel,
    header: HeaderModel,
    provided: Provided,
    context: ContextModel,
    previous_committee: Option<CommitteeModel>,
)
    requires
        m.previous_round_of_interest(header) is None,
    ensures
        m.check_header(header, provided, context) == m.check_header(
            header,
            provided,
            ContextModel { previous_committee, ..context },
        ),
{
}

/// Whether the certificate under `id` is of the given round and author.
pub open spec fn is_by(m: StorageModel, id: Field, round: u64, author: Address) -> bool {
    &&& m.certificate_map().contains_key(id)
    &&& m.certificate_map()[id].header.round == round
    &&& m.certificate_map()[id].header.author == author
}

/// Whether the certificate under `id` is of the given round.
pub open spec fn is_in_round(m: StorageModel, id: Field, round: u64) -> bool {
    m.certificate_map().contains_key(id) && m.certificate_map()[id].header.round == round
}

/// Whether the certificate under `id` declares the transmission.
pub open spec fn is_declared_by(m: StorageModel, id: Field, key: TransmissionKey) -> bool {
    m.certificate_map().contains_key(id) && declares(m.certificate_map()[id].header.transmission_ids, key)
}

/// An author is found in a round exactly if a certificate of that round and author is stored.
pub proof fn law_has_author(m: StorageModel, round: u64, author: Address)
    requires
        m.consistent(),
    ensures
        m.has_author(round, author) <==> exists|id: Field| #[trigger] is_by(m, id, round, author),
{
    let entries = entries_of(m.rounds, round);
    lemma_lookup_as_map(m.rounds, round);
    if m.has_author(round, author) {
        let i = choose|i: int| 0 <= i < entries.len() && (#[trigger] entries[i]).2 == author;
        assert(m.round_map()[round].contains(entries[i]));
        assert(is_by(m, entries[i].0, round, author));
    }
    if exists|id: Field| #[trigger] is_by(m, id, round, author) {
        let id = choose|id: Field| #[trigger] is_by(m, id, round, author);
        assert(m.certificate_map().contains_key(id));
        let i = entries.index_of(m.certificate_map()[id].entry());
        assert(entries[i].2 == author);
    }
}

/// A round is found exactly if a certificate of it is stored.
pub proof fn law_has_round(m: StorageModel, round: u64)
    requires
        m.consistent(),
    ensures
        has_key(m.rounds, round) <==> exists|id: Field| #[trigger] is_in_round(m, id, round),
{
    lemma_lookup_as_map(m.rounds, round);
    if has_key(m.rounds, round) {
        assert(m.round_map().contains_key(round));
        let e = m.round_map()[round][0];
        assert(m.round_map()[round].contains(e));
        assert(is_in_round(m, e.0, round));
    }
    if exists|id: Field| #[trigger] is_in_round(m, id, round) {
        let id = choose|id: Field| #[trigger] is_in_round(m, id, round);
        assert(m.certificate_map().contains_key(id));
    }
}

/// A batch is found, with a round, exactly if a certificate of that batch and round is stored.
pub proof fn law_round_for_batch(m: StorageModel, batch_id: Field, round: u64)
    requires
        m.consistent(),
    ensures
        lookup(m.batch_ids, batch_id) == Some(round) <==> exists|id: Field| #[trigger]
            m.is_for_batch(id, batch_id) && is_in_round(m, id, round),
{
    lemma_lookup_as_map(m.batch_ids, batch_id);
    if lookup(m.batch_ids, batch_id) == Some(round) {
        assert(m.batch_map().contains_key(batch_id));
        let id = choose|id: Field| #[trigger] m.is_for_batch(id, batch_id);
        assert(m.certificate_map().contains_key(id));
        assert(is_in_round(m, id, round));
    }
    if exists|id: Field| #[trigger] m.is_for_batch(id, batch_id) && is_in_round(m, id, round) {
        let id = choose|id: Field| #[trigger] m.is_for_batch(id, batch_id) && is_in_round(m, id, round);
        assert(m.certificate_map().contains_key(id));
    }
}

/// A transmission is stored exactly if a stored certificate declares it, and the
/// certificates that stand with it are exactly those.
pub proof fn law_has_transmission(m: StorageModel, key: TransmissionKey)
    requires
        m.consistent(),
    ensures
        has_key(m.transmissions, key) <==> exists|id: Field| #[trigger] is_declared_by(m, id, key),
        has_key(m.transmissions, key) ==> forall|id: Field|
            lookup(m.transmissions, key).unwrap().1.contains(id) <==> #[trigger] is_declared_by(m, id, key),
{
    lemma_lookup_as_map(m.transmissions, key);
    if has_key(m.transmissions, key) {
        assert(m.transmission_map().contains_key(key));
        let ids = m.transmission_map()[key].1;
        assert forall|id: Field| ids.contains(id) <==> #[trigger] is_declared_by(m, id, key) by {
            if ids.contains(id) {
                assert(m.transmission_map()[key].1.contains(id));
            }
            if is_declared_by(m, id, key) {
                assert(m.certificate_map().contains_key(id));
            }
        }
        assert(ids.contains(ids[0]));
        assert(is_declared_by(m, ids[0], key));
    }
    if exists|id: Field| #[trigger] is_declared_by(m, id, key) {
        let id = choose|id: Field| #[trigger] is_declared_by(m, id, key);
        assert(m.certificate_map().contains_key(id));
    }
}

/// What was inserted is read back: the certificate under its ID and in its round, the round
/// of its batch, its author, and each transmission that it declares, which comes from those
/// given with the certificate unless it was there before. All else is as it was.
pub proof fn law_read_after_insert(m: StorageModel, certificate: CertificateModel, missing: Provided)
    requires
        m.wf(),
        certificate.header.wf(),
    ensures
        ({
            let header = certificate.header;
            let after = m.insert(certificate, missing);
            &&& lookup(after.certificates, certificate.certificate_id) == Some(certificate)
            &&& lookup(after.batch_ids, header.batch_id) == Some(header.round)
            &&& has_key(after.rounds, header.round)
            &&& after.has_author(header.round, header.author)
            &&& header.round != 0 ==> after.certificates_in_round(header.round).contains(certificate)
            &&& forall|k: TransmissionKey|
                #![trigger declares(header.transmission_ids, k)]
                #![trigger lookup(after.transmissions, k)]
                declares(header.transmission_ids, k) ==> {
                    &&& lookup(after.transmissions, k) is Some
                    &&& lookup(after.transmissions, k).unwrap().1.contains(certificate.certificate_id)
                    &&& lookup(after.transmissions, k).unwrap().0 == match lookup(m.transmissions, k) {
                        Some(record) => record.0,
                        None => missing[k],
                    }
                }
            &&& forall|k: TransmissionKey|
                !declares(header.transmission_ids, k) ==> #[trigger] lookup(after.transmissions, k) == lookup(
                    m.transmissions,
                    k,
                )
            &&& forall|id: Field|
                id != certificate.certificate_id ==> #[trigger] lookup(after.certificates, id) == lookup(
                    m.certificates,
                    id,
                )
            &&& forall|b: Field|
                b != header.batch_id ==> #[trigger] lookup(after.batch_ids, b) == lookup(m.batch_ids, b)
            &&& forall|r: u64| r != header.round ==> #[trigger] lookup(after.rounds, r) == lookup(m.rounds, r)
        }),
{
    let header = certificate.header;
    let new_id = certificate.certificate_id;
    let after = m.insert(certificate, missing);
    lemma_insert_maps(m, certificate, missing);
    lemma_attach_all(m.transmissions, header.transmission_ids, missing, new_id);
    lemma_lookup_as_map(after.certificates, new_id);
    assert(after.certificate_map().contains_key(new_id));
    lemma_lookup_as_map(after.batch_ids, header.batch_id);
    lemma_lookup_as_map(after.rounds, header.round);
    lemma_lookup_as_map(m.rounds, header.round);
    let entries = entries_of(after.rounds, header.round);
    lemma_set_insert(entries_of(m.rounds, header.round), certificate.entry());
    assert(entries.contains(certificate.entry()));
    assert(entries[entries.index_of(certificate.entry())].2 == header.author);
    lemma_entry_is_found(after, header.round, certificate);
    assert forall|k: TransmissionKey| declares(header.transmission_ids, k) implies {
        &&& #[trigger] lookup(after.transmissions, k) is Some
        &&& lookup(after.transmissions, k).unwrap().1.contains(certificate.certificate_id)
        &&& lookup(after.transmissions, k).unwrap().0 == match lookup(m.transmissions, k) {
            Some(record) => record.0,
            None => missing[k],
        }
    } by {
        lemma_lookup_as_map(m.transmissions, k);
        lemma_lookup_as_map(after.transmissions, k);
        assert(after.transmission_map()[k] == attached(m.transmission_map(), k, missing, new_id));
        if m.transmission_map().contains_key(k) {
            lemma_set_insert(m.transmission_map()[k].1, new_id);
        } else {
            assert(seq![new_id][0] == new_id);
        }
    }
    assert forall|k: TransmissionKey| !declares(header.transmission_ids, k) implies #[trigger] lookup(
        after.transmissions,
        k,
    ) == lookup(m.transmissions, k) by {
        lemma_lookup_as_map(m.transmissions, k);
        lemma_lookup_as_map(after.transmissions, k);
    }
    assert forall|id: Field| id != new_id implies #[trigger] lookup(after.certificates, id) == lookup(
        m.certificates,
        id,
    ) by {
        lemma_lookup_as_map(m.certificates, id);
        lemma_lookup_as_map(after.certificates, id);
    }
    assert forall|b: Field| b != header.batch_id implies #[trigger] lookup(after.batch_ids, b) == lookup(
        m.batch_ids,
        b,
    ) by {
        lemma_lookup_as_map(m.batch_ids, b);
        lemma_lookup_as_map(after.batch_ids, b);
    }
    assert forall|r: u64| r != header.round implies #[trigger] lookup(after.rounds, r) == lookup(m.rounds, r) by {
        lemma_lookup_as_map(m.rounds, r);
        lemma_lookup_as_map(after.rounds, r);
    }
}

/// A stored certificate with an entry in a round is among the certificates of the round.
proof fn lemma_entry_is_found(m: StorageModel, round: u64, certificate: CertificateModel)
    requires
        m.wf(),
        entries_of(m.rounds, round).contains(certificate.entry()),
        lookup(m.certificates, certificate.certificate_id) == Some(certificate),
    ensures
        round != 0 ==> m.certificates_in_round(round).contains(certificate),
{
    let entries = entries_of(m.rounds, round);
    let listed = entries.map_values(|entry: RoundEntry| entry.0);
    let i = entries.index_of(certificate.entry());
    assert(listed[i] == certificate.certificate_id);
    assert(listed.contains(certificate.certificate_id));
    lemma_distinct(listed);
    lemma_stored(m, m.ids_in_round(round));
}

/// What was removed is not found: neither the certificate nor its batch, nor the
/// transmissions that no other certificate declares. All else is as it was.
pub proof fn law_read_after_remove(m: StorageModel, certificate: CertificateModel)
    requires
        m.wf(),
        lookup(m.certificates, certificate.certificate_id) == Some(certificate),
    ensures
        ({
            let header = certificate.header;
            let after = m.remove(certificate.certificate_id);
            &&& lookup(after.certificates, certificate.certificate_id) is None
            &&& lookup(after.batch_ids, header.batch_id) is None
            &&& !entries_of(after.rounds, header.round).contains(certificate.entry())
            &&& forall|r: u64| !#[trigger] after.certificates_in_round(r).contains(certificate)
            &&& forall|k: TransmissionKey| #[trigger]
                has_key(after.transmissions, k) <==> has_key(m.transmissions, k) && (declares(
                    header.transmission_ids,
                    k,
                ) ==> exists|id: Field|
                    id != certificate.certificate_id && #[trigger] lookup(m.transmissions, k).unwrap().1.contains(id))
            &&& m.consistent() ==> forall|k: TransmissionKey| #[trigger]
                has_key(after.transmissions, k) <==> exists|id: Field|
                    id != certificate.certificate_id && #[trigger] is_declared_by(m, id, k)
            &&& forall|k: TransmissionKey| #[trigger]
                has_key(after.transmissions, k) ==> lookup(after.transmissions, k).unwrap().0 == lookup(
                    m.transmissions,
                    k,
                ).unwrap().0
            &&& forall|id: Field|
                id != certificate.certificate_id ==> #[trigger] lookup(after.certificates, id) == lookup(
                    m.certificates,
                    id,
                )
            &&& forall|b: Field|
                b != header.batch_id ==> #[trigger] lookup(after.batch_ids, b) == lookup(m.batch_ids, b)
            &&& forall|r: u64| r != header.round ==> #[trigger] lookup(after.rounds, r) == lookup(m.rounds, r)
        }),
{
    let header = certificate.header;
    let old_id = certificate.certificate_id;
    let after = m.remove(old_id);
    lemma_lookup_as_map(m.certificates, old_id);
    lemma_remove_maps(m, old_id);
    lemma_detach_all(m.transmissions, header.transmission_ids, old_id);
    lemma_lookup_as_map(after.certificates, old_id);
    lemma_lookup_as_map(after.batch_ids, header.batch_id);
    lemma_lookup_as_map(m.rounds, header.round);
    lemma_lookup_as_map(after.rounds, header.round);
    lemma_set_swap_remove(entries_of(m.rounds, header.round), certificate.entry());
    assert forall|r: u64| !#[trigger] after.certificates_in_round(r).contains(certificate) by {
        lemma_distinct(entries_of(after.rounds, r).map_values(|entry: RoundEntry| entry.0));
        lemma_stored(after, after.ids_in_round(r));
    }
    assert forall|k: TransmissionKey| #[trigger] has_key(after.transmissions, k) <==> has_key(m.transmissions, k) && (
    declares(header.transmission_ids, k) ==> exists|id: Field|
        id != old_id && #[trigger] lookup(m.transmissions, k).unwrap().1.contains(id)) by {
        lemma_lookup_as_map(m.transmissions, k);
        lemma_lookup_as_map(after.transmissions, k);
        if has_key(m.transmissions, k) {
            let ids = lookup(m.transmissions, k).unwrap().1;
            let left = set_swap_remove(ids, old_id);
            assert(m.transmission_map().contains_key(k));
            lemma_set_swap_remove(ids, old_id);
            if left.len() > 0 {
                assert(left.contains(left[0]));
                assert(ids.contains(left[0]));
            }
            if exists|id: Field| id != old_id && #[trigger] ids.contains(id) {
                let id = choose|id: Field| id != old_id && #[trigger] ids.contains(id);
                assert(left.contains(id));
            }
        }
    }
    if m.consistent() {
        lemma_remove_consistent(m, old_id);
        lemma_remove_shrinks(m, old_id);
        assert forall|k: TransmissionKey| #[trigger] has_key(after.transmissions, k) <==> exists|id: Field|
            id != old_id && #[trigger] is_declared_by(m, id, k) by {
            law_has_transmission(after, k);
            if has_key(after.transmissions, k) {
                let id = choose|id: Field| #[trigger] is_declared_by(after, id, k);
                assert(is_declared_by(m, id, k));
            }
            if exists|id: Field| id != old_id && #[trigger] is_declared_by(m, id, k) {
                let id = choose|id: Field| id != old_id && #[trigger] is_declared_by(m, id, k);
                assert(is_declared_by(after, id, k));
            }
        }
    }
    assert forall|k: TransmissionKey| #[trigger] has_key(after.transmissions, k) implies lookup(
        after.transmissions,
        k,
    ).unwrap().0 == lookup(m.transmissions, k).unwrap().0 by {
        lemma_lookup_as_map(m.transmissions, k);
        lemma_lookup_as_map(after.transmissions, k);
    }
    assert forall|id: Field| id != old_id implies #[trigger] lookup(after.certificates, id) == lookup(
        m.certificates,
        id,
    ) by {
        lemma_lookup_as_map(m.certificates, id);
        lemma_lookup_as_map(after.certificates, id);
    }
    assert forall|b: Field| b != header.batch_id implies #[trigger] lookup(after.batch_ids, b) == lookup(
        m.batch_ids,
        b,
    ) by {
        lemma_lookup_as_map(m.batch_ids, b);
        lemma_lookup_as_map(after.batch_ids, b);
    }
    assert forall|r: u64| r != header.round implies #[trigger] lookup(after.rounds, r) == lookup(m.rounds, r) by {
        lemma_lookup_as_map(m.rounds, r);
        lemma_lookup_as_map(after.rounds, r);
    }
}

/// A certificate that was inserted upon request is refused when it comes again.
pub proof fn law_second_insert_is_refused(
    m: StorageModel,
    certificate: CertificateModel,
    signers: Seq<Address>,
    provided: Provided,
    context: ContextModel,
    later_signers: Seq<Address>,
    later_provided: Provided,
    later_context: ContextModel,
)
    requires
        m.wf(),
        certificate.header.wf(),
        m.try_insert(certificate, signers, provided, context) is Ok,
    ensures
        m.try_insert(certificate, signers, provided, context).unwrap().try_insert(
            certificate,
            later_signers,
            later_provided,
            later_context,
        )
            == Err::<StorageModel, StorageError>(StorageError::CertificateExists),
{
    let missing = m.check_certificate(certificate, signers, provided, context).unwrap();
    law_read_after_insert(m, certificate, missing);
}

/// A second certificate of an author for the same round is refused: as one that exists, if
/// its ID is stored, and else by its author.
pub proof fn law_second_author_is_refused(
    m: StorageModel,
    first: CertificateModel,
    first_signers: Seq<Address>,
    provided: Provided,
    context: ContextModel,
    second: CertificateModel,
    second_signers: Seq<Address>,
    later_provided: Provided,
    later_context: ContextModel,
)
    requires
        m.wf(),
        first.header.wf(),
        m.try_insert(first, first_signers, provided, context) is Ok,
        second.header.round == first.header.round,
        second.header.author == first.header.author,
    ensures
        m.try_insert(first, first_signers, provided, context).unwrap().try_insert(
            second,
            second_signers,
            later_provided,
            later_context,
        ) == Err::<StorageModel, StorageError>(
            if has_key(m.certificates, second.certificate_id) || second.certificate_id == first.certificate_id {
                StorageError::CertificateExists
            } else {
                StorageError::AuthorExists
            },
        ),
{
    let missing = m.check_certificate(first, first_signers, provided, context).unwrap();
    law_read_after_insert(m, first, missing);
    let after = m.insert(first, missing);
    if second.certificate_id != first.certificate_id {
        assert(lookup(after.certificates, second.certificate_id) == lookup(m.certificates, second.certificate_id));
    }
}

/// Garbage collection removes the certificates up to the GC round, that round included,
/// and no others; the rest of the storage shrinks with them.
pub proof fn law_garbage_collection(m: StorageModel, round: u64)
    requires
        m.valid(),
        m.above_gc(),
        m.current_round <= round,
    ensures
        m.advance(round).gc_round == minus(round, m.max_gc_rounds),
        forall|id: Field| #[trigger]
            lookup(m.advance(round).certificates, id) == (match lookup(m.certificates, id) {
                Some(c) => if c.header.round > minus(round, m.max_gc_rounds) {
                    Some(c)
                } else {
                    None
                },
                None => None,
            }),
        forall|r: u64| r <= minus(round, m.max_gc_rounds) ==> !#[trigger] has_key(m.advance(round).rounds, r),
        forall|k: TransmissionKey| #[trigger]
            has_key(m.advance(round).transmissions, k) <==> exists|id: Field| #[trigger]
                is_declared_by(m, id, k) && m.certificate_map()[id].header.round > minus(round, m.max_gc_rounds),
{
    let after = m.advance(round);
    let gc_round = minus(round, m.max_gc_rounds);
    lemma_advance(m, round);
    assert(after.gc_round == gc_round);
    assert forall|id: Field| #[trigger] lookup(after.certificates, id) == (match lookup(m.certificates, id) {
        Some(c) => if c.header.round > gc_round {
            Some(c)
        } else {
            None
        },
        None => None,
    }) by {
        lemma_lookup_as_map(m.certificates, id);
        lemma_lookup_as_map(after.certificates, id);
        assert(after.certificate_map().contains_key(id) <==> m.certificate_map().contains_key(id)
            && m.certificate_map()[id].header.round > gc_round);
    }
    assert forall|r: u64| r <= gc_round implies !#[trigger] has_key(after.rounds, r) by {
        law_has_round(after, r);
        if has_key(after.rounds, r) {
            let id = choose|id: Field| #[trigger] is_in_round(after, id, r);
            assert(after.certificate_map().contains_key(id));
        }
    }
    assert forall|k: TransmissionKey| #[trigger] has_key(after.transmissions, k) <==> exists|id: Field| #[trigger]
        is_declared_by(m, id, k) && m.certificate_map()[id].header.round > gc_round by {
        law_has_transmission(after, k);
        if has_key(after.transmissions, k) {
            let id = choose|id: Field| #[trigger] is_declared_by(after, id, k);
            assert(is_declared_by(m, id, k));
        }
        if exists|id: Field| #[trigger] is_declared_by(m, id, k) && m.certificate_map()[id].header.round > gc_round {
            let id = choose|id: Field| #[trigger]
                is_declared_by(m, id, k) && m.certificate_map()[id].header.round > gc_round;
            assert(after.certificate_map().contains_key(id));
            assert(is_declared_by(after, id, k));
        }
    }
}

/// The rounds up to the current one that have certificates.
pub open spec fn kept_rounds(m: StorageModel) -> Set<int> {
    Set::new(|r: int| 0 <= r <= m.current_round && has_key(m.rounds, r as u64))
}

/// A sound storage is in round one or later, each round with certificates is above the GC
/// round, and up to the current round there are no more of them than are to be kept.
pub proof fn law_rounds_are_kept(m: StorageModel)
    requires
        m.sound(),
    ensures
        m.current_round >= 1,
        forall|r: u64| #[trigger] has_key(m.rounds, r) ==> r > m.gc_round,
        kept_rounds(m).finite(),
        kept_rounds(m).len() <= m.max_gc_rounds,
{
    assert forall|r: u64| #[trigger] has_key(m.rounds, r) implies r > m.gc_round by {
        law_has_round(m, r);
        let id = choose|id: Field| #[trigger] is_in_round(m, id, r);
        assert(m.certificate_map().contains_key(id));
    }
    lemma_int_range(m.gc_round + 1, m.current_round + 1);
    assert(kept_rounds(m).subset_of(set_int_range(m.gc_round + 1, m.current_round + 1))) by {
        assert forall|r: int| kept_rounds(m).contains(r) implies set_int_range(
            m.gc_round + 1,
            m.current_round + 1,
        ).contains(r) by {
            assert(has_key(m.rounds, r as u64));
        }
    }
    lemma_len_subset(kept_rounds(m), set_int_range(m.gc_round + 1, m.current_round + 1));
}

/// A certificate that garbage collection removed does not come back upon request.
pub proof fn law_collected_is_refused(
    m: StorageModel,
    round: u64,
    certificate: CertificateModel,
    signers: Seq<Address>,
    provided: Provided,
    context: ContextModel,
)
    requires
        m.valid(),
        m.above_gc(),
        m.current_round <= round,
        lookup(m.certificates, certificate.certificate_id) == Some(certificate),
        lookup(m.advance(round).certificates, certificate.certificate_id) is None,
    ensures
        m.advance(round).try_insert(certificate, signers, provided, context) == Err::<StorageModel, StorageError>(
            StorageError::CertificateAtOrBelowGcRound,
        ),
{
    law_garbage_collection(m, round);
}

/// Moving to a later round never takes the GC round back, and never ahead of the round.
pub proof fn law_rounds_never_fall(m: StorageModel, round: u64)
    requires
        m.current_round <= round,
    ensures
        m.advance(round).current_round == round,
        m.advance(round).gc_round >= m.gc_round,
        m.gc_round <= m.current_round ==> m.advance(round).gc_round <= round,
        m.advance(round).current_height == m.current_height,
        m.advance(round).max_gc_rounds == m.max_gc_rounds,
{
    let gc_round = minus(round, m.max_gc_rounds);
    let moved = StorageModel { current_round: round, ..m };
    lemma_collect_keeps_trackers(moved, m.gc_round as int, gc_round as int);
}

/// Collecting rounds leaves the trackers of the storage as they are.
proof fn lemma_collect_keeps_trackers(m: StorageModel, from: int, to: int)
    ensures
        m.collect_rounds(from, to).current_height == m.current_height,
        m.collect_rounds(from, to).current_round == m.current_round,
        m.collect_rounds(from, to).gc_round == m.gc_round,
        m.collect_rounds(from, to).max_gc_rounds == m.max_gc_rounds,
    decreases to - from + 1,
{
    if from <= to {
        let before = m.collect_rounds(from, to - 1);
        lemma_collect_keeps_trackers(m, from, to - 1);
        lemma_remove_all_keeps_trackers(before, before.certificates_in_round(to as u64));
    }
}

proof fn lemma_remove_all_keeps_trackers(m: StorageModel, certificates: Seq<CertificateModel>)
    ensures
        m.remove_all(certificates).current_height == m.current_height,
        m.remove_all(certificates).current_round == m.current_round,
        m.remove_all(certificates).gc_round == m.gc_round,
        m.remove_all(certificates).max_gc_rounds == m.max_gc_rounds,
    decreases certificates.len(),
{
    if certificates.len() > 0 {
        lemma_remove_all_keeps_trackers(m, certificates.drop_last());
    }
}

/// Whether a batch header meets what is asked of its transmissions: none is stored with a
/// certificate of a past round (up to GC), and each is stored or provided.
pub open spec fn transmissions_in_order(m: StorageModel, header: HeaderModel, provided: Provided) -> bool {
    forall|k: TransmissionKey| #[trigger]
        declares(header.transmission_ids, k) ==> {
            &&& has_key(m.transmissions, k) || provided.contains_key(k)
            &&& has_key(m.transmissions, k) ==> !m.any_before(lookup(m.transmissions, k).unwrap().1, header.round)
        }
}

/// Whether the previous certificates of a batch header are in order: all are stored, all
/// are of the previous round, no two have the same author, there are no more of them than
/// members, and their authors are a quorum.
pub open spec fn previous_in_order(m: StorageModel, header: HeaderModel, committee: CommitteeModel) -> bool {
    let ids = header.previous_certificate_ids;
    let previous_round = minus(header.round, 1);
    &&& has_key(m.rounds, previous_round)
    &&& ids.len() <= committee.members.len()
    &&& forall|i: int|
        0 <= i < ids.len() ==> (lookup(m.certificates, #[trigger] ids[i]) matches Some(c) && c.header.round
            == previous_round)
    &&& m.authors(ids).no_duplicates()
    &&& committee.quorum_reached(m.authors(ids))
}

/// Whether a batch header meets all that is asked of it.
pub open spec fn header_in_order(
    m: StorageModel,
    header: HeaderModel,
    provided: Provided,
    context: ContextModel,
) -> bool {
    &&& !has_key(m.batch_ids, header.batch_id)
    &&& context.committee matches Some(committee) && committee.is_member(header.author)
    &&& context.is_live(header.timestamp)
    &&& transmissions_in_order(m, header, provided)
    &&& minus(header.round, 1) > m.gc_round ==> (context.previous_committee matches Some(committee)
        && previous_in_order(m, header, committee))
}

/// A batch header passes its check exactly if it meets all that is asked of it, and the
/// answer is then those of its transmissions that are not stored, as they were provided.
pub proof fn law_header_check(m: StorageModel, header: HeaderModel, provided: Provided, context: ContextModel)
    ensures
        m.check_header(header, provided, context) is Ok <==> header_in_order(m, header, provided, context),
        m.check_header(header, provided, context) matches Ok(missing) ==> {
            &&& forall|k: TransmissionKey| #[trigger]
                missing.contains_key(k) <==> declares(header.transmission_ids, k) && !has_key(m.transmissions, k)
            &&& forall|k: TransmissionKey| #[trigger]
                missing.contains_key(k) ==> provided.contains_key(k) && missing[k] == provided[k]
        },
{
    let ids = header.transmission_ids;
    lemma_transmissions_fault(m, header.round, provided, ids);
    assert(transmissions_in_order(m, header, provided) <==> m.transmissions_fault(header.round, provided, ids) is None)
        by {
        if m.transmissions_fault(header.round, provided, ids) is None {
            assert forall|k: TransmissionKey| #[trigger] declares(ids, k) implies {
                &&& has_key(m.transmissions, k) || provided.contains_key(k)
                &&& has_key(m.transmissions, k) ==> !m.any_before(lookup(m.transmissions, k).unwrap().1, header.round)
            } by {
                let i = choose|i: int| 0 <= i < ids.len() && (#[trigger] ids[i]).key() == k;
                assert(m.transmission_fault(header.round, provided, ids[i]) is None);
            }
        }
        if transmissions_in_order(m, header, provided) {
            assert forall|i: int| 0 <= i < ids.len() implies m.transmission_fault(
                header.round,
                provided,
                #[trigger] ids[i],
            ) is None by {
                assert(declares(ids, ids[i].key()));
            }
        }
    }
    lemma_previous_fault(m, minus(header.round, 1), header.previous_certificate_ids);
}

/// Transmissions have no fault exactly if none of them has one.
proof fn lemma_transmissions_fault(m: StorageModel, round: u64, provided: Provided, ids: Seq<TransmissionID>)
    ensures
        m.transmissions_fault(round, provided, ids) is None <==> forall|i: int|
            0 <= i < ids.len() ==> m.transmission_fault(round, provided, #[trigger] ids[i]) is None,
    decreases ids.len(),
{
    if ids.len() > 0 {
        let d = ids.drop_last();
        let last = ids[ids.len() - 1];
        lemma_transmissions_fault(m, round, provided, d);
        assert forall|i: int| 0 <= i < d.len() implies #[trigger] d[i] == ids[i] by {}
        if m.transmissions_fault(round, provided, ids) is None {
            assert forall|i: int| 0 <= i < ids.len() implies m.transmission_fault(
                round,
                provided,
                #[trigger] ids[i],
            ) is None by {
                if i < d.len() {
                    assert(d[i] == ids[i]);
                }
            }
        }
    }
}

/// Previous certificates have no fault exactly if all are stored and of the previous
/// round, and no two have the same author.
proof fn lemma_previous_fault(m: StorageModel, previous_round: u64, ids: Seq<Field>)
    ensures
        m.previous_fault(previous_round, ids) is None <==> {
            &&& forall|i: int|
                0 <= i < ids.len() ==> (lookup(m.certificates, #[trigger] ids[i]) matches Some(c) && c.header.round
                    == previous_round)
            &&& m.authors(ids).no_duplicates()
        },
    decreases ids.len(),
{
    if ids.len() > 0 {
        let d = ids.drop_last();
        let n = ids.len() - 1;
        lemma_previous_fault(m, previous_round, d);
        let authors = m.authors(ids);
        let before = m.authors(d);
        assert forall|i: int| 0 <= i < n implies #[trigger] d[i] == ids[i] && before[i] == authors[i] by {}
        if m.previous_fault(previous_round, ids) is None {
            assert forall|i: int| 0 <= i < ids.len() implies (lookup(m.certificates, #[trigger] ids[i]) matches Some(
                c,
            ) && c.header.round == previous_round) by {
                if i < n {
                    assert(d[i] == ids[i]);
                }
            }
            assert forall|i: int, j: int| 0 <= i < j < authors.len() implies authors[i] != authors[j] by {
                assert(before[i] == authors[i]);
                if j < n {
                    assert(before[j] == authors[j]);
                } else {
                    assert(before.contains(before[i]));
                }
            }
        }
        if (forall|i: int|
            0 <= i < ids.len() ==> (lookup(m.certificates, #[trigger] ids[i]) matches Some(c) && c.header.round
                == previous_round)) && authors.no_duplicates() {
            assert forall|i: int| 0 <= i < d.len() implies (lookup(m.certificates, #[trigger] d[i]) matches Some(c)
                && c.header.round == previous_round) by {
                assert(d[i] == ids[i]);
            }
            assert forall|i: int, j: int| 0 <= i < j < before.len() implies before[i] != before[j] by {
                assert(before[i] == authors[i] && before[j] == authors[j]);
            }
            let last = lookup(m.certificates, ids[n]).unwrap().header.author;
            assert(authors[n] == last);
            if before.contains(last) {
                let i = before.index_of(last);
                assert(authors[i] == authors[n]);
            }
        }
    }
}

/// A certificate passes its check exactly if neither it nor another of its author in its
/// round is stored, its header meets all that is asked of it, the timestamps of its
/// signatures are live, and its signers are in the committee and with the author a quorum.
pub proof fn law_certificate_check(
    m: StorageModel,
    certificate: CertificateModel,
    signers: Seq<Address>,
    provided: Provided,
    context: ContextModel,
)
    ensures
        m.check_certificate(certificate, signers, provided, context) is Ok <==> {
            let header = certificate.header;
            &&& !has_key(m.certificates, certificate.certificate_id)
            &&& !m.has_author(header.round, header.author)
            &&& header_in_order(m, header, provided, context)
            &&& context.are_live(certificate.timestamps())
            &&& forall|i: int|
                0 <= i < signers.len() ==> context.committee.unwrap().is_member(#[trigger] signers[i])
            &&& context.committee.unwrap().quorum_reached(distinct(seq![header.author] + signers))
        },
        m.check_certificate(certificate, signers, provided, context) is Ok ==> m.check_certificate(
            certificate,
            signers,
            provided,
            context,
        ) == m.check_header(certificate.header, provided, context),
{
    law_header_check(m, certificate.header, provided, context);
    if context.committee is Some {
        lemma_first_outsider(context.committee.unwrap(), signers);
    }
}

/// There is no outsider exactly if all are members.
proof fn lemma_first_outsider(committee: CommitteeModel, addresses: Seq<Address>)
    ensures
        first_outsider(committee, addresses) is None <==> forall|i: int|
            0 <= i < addresses.len() ==> committee.is_member(#[trigger] addresses[i]),
    decreases addresses.len(),
{
    if addresses.len() > 0 {
        let d = addresses.drop_last();
        let last = addresses[addresses.len() - 1];
        lemma_first_outsider(committee, d);
        assert forall|i: int| 0 <= i < d.len() implies #[trigger] d[i] == addresses[i] by {}
        if first_outsider(committee, addresses) is None {
            assert forall|i: int| 0 <= i < addresses.len() implies committee.is_member(#[trigger] addresses[i]) by {
                if i < d.len() {
                    assert(d[i] == addresses[i]);
                }
            }
        }
    }
}

/// Where the members have a stake of `3f + 1` together, a quorum takes `2f + 1` of it.
pub proof fn law_quorum_threshold(committee: CommitteeModel, f: int)
    requires
        stake_sum(committee.members) == 3 * f + 1,
        0 <= 2 * (3 * f + 1) <= u64::MAX,
    ensures
        committee.quorum_threshold() == 2 * f + 1,
{
}

} // verus!
