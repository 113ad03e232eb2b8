//! What each change does to each map of the storage, place by place.

use crate::batch::CertificateModel;
use crate::collection::{lemma_certificates_in_round, lemma_collect_rounds, lemma_same_maps};
use crate::consistency::{lemma_attach_all, lemma_last_is_new};
use crate::ids::{Field, RoundEntry, TransmissionID, TransmissionKey};
use crate::meaning::{law_entries_of, law_lookup, law_swap_remove, law_upsert};
use crate::model::{attach_all, declares, detach, detach_all, drop_entry, entries_of, minus, stored};
use crate::model::{Certificates, Provided, Rounds, StorageModel, Transmissions};
use crate::ordered::{as_map, distinct, distinct_keys, has_key, lemma_lookup_as_map, lemma_position};
use crate::ordered::{lookup, position, set_insert, set_swap_remove, swap_remove};
use vstd::prelude::*;

verus! {

/// Attaching a certificate to transmissions leaves all that are stored in their place, with
/// the certificate among those of each listed one. Those that are not stored come last, in
/// the order of the list, as provided, with this certificate alone.
pub proof fn law_attach_all(
    transmissions: Transmissions,
    ids: Seq<TransmissionID>,
    missing: Provided,
    certificate_id: Field,
)
    requires
        distinct_keys(transmissions),
        ids.no_duplicates(),
    ensures
        ({
            let after = attach_all(transmissions, ids, missing, certificate_id);
            let n = transmissions.len();
            &&& after.len() >= n
            &&& forall|i: int|
                0 <= i < n ==> (#[trigger] after[i]).0 == transmissions[i].0 && after[i].1.0 == transmissions[i].1.0
                    && after[i].1.1 == (if declares(ids, transmissions[i].0) {
                    set_insert(transmissions[i].1.1, certificate_id)
                } else {
                    transmissions[i].1.1
                })
            &&& forall|i: int|
                n <= i < after.len() ==> {
                    &&& !has_key(transmissions, (#[trigger] after[i]).0)
                    &&& declares(ids, after[i].0)
                    &&& after[i].1.0 == missing[after[i].0]
                    &&& after[i].1.1 == seq![certificate_id]
                }
            &&& forall|a: int| 0 <= a < ids.len() ==> has_key(after, (#[trigger] ids[a]).key())
            &&& forall|i: int, j: int, a: int, b: int|
                #![trigger after[i], after[j], ids[a], ids[b]]
                n <= i < j < after.len() && 0 <= a < ids.len() && 0 <= b < ids.len() && ids[a].key() == after[i].0
                    && ids[b].key() == after[j].0 ==> a < b
        }),
    decreases ids.len(),
{
    let after = attach_all(transmissions, ids, missing, certificate_id);
    let n = transmissions.len();
    lemma_attach_all(transmissions, ids, missing, certificate_id);
    assert forall|a: int| 0 <= a < ids.len() implies has_key(after, (#[trigger] ids[a]).key()) by {
        assert(declares(ids, ids[a].key()));
        assert(as_map(after).contains_key(ids[a].key()));
    }
    if ids.len() > 0 {
        let d = ids.drop_last();
        let last = ids.len() - 1;
        let key = ids.last().key();
        lemma_last_is_new(ids);
        law_attach_all(transmissions, d, missing, certificate_id);
        lemma_attach_all(transmissions, d, missing, certificate_id);
        let mid = attach_all(transmissions, d, missing, certificate_id);
        if has_key(transmissions, key) {
            let p = position(transmissions, key);
            assert(transmissions[p].0 == key);
            assert(mid[p].0 == key);
            lemma_position(mid, p);
            assert(after.len() == mid.len());
        } else {
            if has_key(mid, key) {
                let p = position(mid, key);
                assert(mid[p].0 == key);
                if p < n {
                    assert(transmissions[p].0 == key);
                }
            }
            assert(after == mid.push((key, (missing[key], seq![certificate_id]))));
        }
        assert forall|i: int| 0 <= i < n implies (#[trigger] after[i]).0 == transmissions[i].0 && after[i].1.0
            == transmissions[i].1.0 && after[i].1.1 == (if declares(ids, transmissions[i].0) {
            set_insert(transmissions[i].1.1, certificate_id)
        } else {
            transmissions[i].1.1
        }) by {
            assert(mid[i].0 == transmissions[i].0);
            if transmissions[i].0 == key {
                lemma_position(transmissions, i);
            } else {
                assert(after[i] == mid[i]);
            }
        }
        assert forall|i: int| n <= i < after.len() implies {
            &&& !has_key(transmissions, (#[trigger] after[i]).0)
            &&& declares(ids, after[i].0)
            &&& after[i].1.0 == missing[after[i].0]
            &&& after[i].1.1 == seq![certificate_id]
        } by {
            if i < mid.len() {
                assert(after[i] == mid[i]);
            }
        }
        assert forall|i: int, j: int, a: int, b: int|
            #![trigger after[i], after[j], ids[a], ids[b]]
            n <= i < j < after.len() && 0 <= a < ids.len() && 0 <= b < ids.len() && ids[a].key() == after[i].0
                && ids[b].key() == after[j].0 implies a < b by {
            assert(after[i] == mid[i]);
            assert(declares(d, mid[i].0));
            assert(a < last) by {
                if a == last {
                    assert(declares(d, key));
                }
            }
            assert(d[a] == ids[a]);
            if b < last {
                assert(d[b] == ids[b]);
                if j < mid.len() {
                    assert(after[j] == mid[j]);
                } else {
                    assert(d[b].key() == key);
                    assert(declares(d, key));
                }
            }
        }
    }
}

/// Inserting a certificate leaves the trackers as they are and every entry in its place. It
/// sets the certificate under its ID and the round under its batch, puts its entry last in
/// its round, and attaches it to its transmissions. What was not there before comes last.
pub proof fn law_insert_places(m: StorageModel, certificate: CertificateModel, missing: Provided)
    requires
        m.wf(),
        certificate.header.wf(),
    ensures
        ({
            let after = m.insert(certificate, missing);
            let header = certificate.header;
            let id = certificate.certificate_id;
            let entry = (id, header.batch_id, header.author);
            &&& after.current_height == m.current_height
            &&& after.current_round == m.current_round
            &&& after.gc_round == m.gc_round
            &&& after.max_gc_rounds == m.max_gc_rounds
            &&& after.certificates.len() == m.certificates.len() + if has_key(m.certificates, id) {
                0int
            } else {
                1
            }
            &&& forall|i: int|
                0 <= i < after.certificates.len() ==> #[trigger] after.certificates[i] == (if i < m.certificates.len()
                    && m.certificates[i].0 != id {
                    m.certificates[i]
                } else {
                    (id, certificate)
                })
            &&& after.batch_ids.len() == m.batch_ids.len() + if has_key(m.batch_ids, header.batch_id) {
                0int
            } else {
                1
            }
            &&& forall|i: int|
                0 <= i < after.batch_ids.len() ==> #[trigger] after.batch_ids[i] == (if i < m.batch_ids.len()
                    && m.batch_ids[i].0 != header.batch_id {
                    m.batch_ids[i]
                } else {
                    (header.batch_id, header.round)
                })
            &&& after.rounds.len() == m.rounds.len() + if has_key(m.rounds, header.round) {
                0int
            } else {
                1
            }
            &&& forall|i: int|
                0 <= i < after.rounds.len() ==> #[trigger] after.rounds[i] == (if i >= m.rounds.len() {
                    (header.round, seq![entry])
                } else if m.rounds[i].0 != header.round {
                    m.rounds[i]
                } else {
                    (header.round, set_insert(m.rounds[i].1, entry))
                })
            &&& after.transmissions == attach_all(m.transmissions, header.transmission_ids, missing, id)
        }),
{
    let header = certificate.header;
    let id = certificate.certificate_id;
    let after = m.insert(certificate, missing);
    let entry = (id, header.batch_id, header.author);
    let entries = entries_of(m.rounds, header.round);
    law_upsert(m.certificates, id, certificate);
    law_upsert(m.batch_ids, header.batch_id, header.round);
    law_upsert(m.rounds, header.round, set_insert(entries, entry));
    law_entries_of(m.rounds, header.round);
    if has_key(m.certificates, id) {
        assert(m.certificates[position(m.certificates, id)].0 == id);
    }
    if has_key(m.batch_ids, header.batch_id) {
        assert(m.batch_ids[position(m.batch_ids, header.batch_id)].0 == header.batch_id);
    }
    if has_key(m.rounds, header.round) {
        assert(m.rounds[position(m.rounds, header.round)].0 == header.round);
    } else {
        assert(entries =~= Seq::<RoundEntry>::empty());
        assert(set_insert(entries, entry) =~= seq![entry]);
    }
    assert forall|i: int| 0 <= i < after.rounds.len() implies #[trigger] after.rounds[i] == (if i >= m.rounds.len() {
        (header.round, seq![entry])
    } else if m.rounds[i].0 != header.round {
        m.rounds[i]
    } else {
        (header.round, set_insert(m.rounds[i].1, entry))
    }) by {}
}

/// Dropping an entry takes it out of its round, and takes the round out if nothing is left in
/// it; all other rounds keep their entries.
pub proof fn law_drop_entry(rounds: Rounds, round: u64, entry: RoundEntry)
    requires
        distinct_keys(rounds),
    ensures
        (forall|i: int| 0 <= i < rounds.len() ==> (#[trigger] rounds[i]).0 != round) ==> drop_entry(
            rounds,
            round,
            entry,
        ) == rounds,
        forall|q: int|
            0 <= q < rounds.len() && (#[trigger] rounds[q]).0 == round ==> {
                let left = set_swap_remove(rounds[q].1, entry);
                let after = drop_entry(rounds, round, entry);
                &&& left.len() == 0 ==> after == swap_remove(rounds, round)
                &&& left.len() > 0 ==> after.len() == rounds.len() && after[q] == (round, left) && forall|i: int|
                    0 <= i < rounds.len() && i != q ==> #[trigger] after[i] == rounds[i]
            },
{
    let left = set_swap_remove(entries_of(rounds, round), entry);
    law_entries_of(rounds, round);
    law_swap_remove(rounds, round);
    law_upsert(rounds, round, left);
    assert forall|q: int| 0 <= q < rounds.len() && (#[trigger] rounds[q]).0 == round implies {
        let left = set_swap_remove(rounds[q].1, entry);
        let after = drop_entry(rounds, round, entry);
        &&& left.len() == 0 ==> after == swap_remove(rounds, round)
        &&& left.len() > 0 ==> after.len() == rounds.len() && after[q] == (round, left) && forall|i: int|
            0 <= i < rounds.len() && i != q ==> #[trigger] after[i] == rounds[i]
    } by {
        assert(rounds[q].0 == round);
    }
}

/// Detaching a certificate from a transmission takes it out of those of the transmission, and
/// takes the transmission out if none is left; all other transmissions stay as they are.
pub proof fn law_detach(transmissions: Transmissions, key: TransmissionKey, certificate_id: Field)
    requires
        distinct_keys(transmissions),
    ensures
        (forall|i: int| 0 <= i < transmissions.len() ==> (#[trigger] transmissions[i]).0 != key) ==> detach(
            transmissions,
            key,
            certificate_id,
        ) == transmissions,
        forall|q: int|
            0 <= q < transmissions.len() && (#[trigger] transmissions[q]).0 == key ==> {
                let left = set_swap_remove(transmissions[q].1.1, certificate_id);
                let after = detach(transmissions, key, certificate_id);
                &&& left.len() == 0 ==> after == swap_remove(transmissions, key)
                &&& left.len() > 0 ==> after.len() == transmissions.len() && after[q] == (
                    key,
                    (transmissions[q].1.0, left),
                ) && forall|i: int|
                    0 <= i < transmissions.len() && i != q ==> #[trigger] after[i] == transmissions[i]
            },
{
    law_lookup(transmissions, key);
    assert forall|q: int| 0 <= q < transmissions.len() && (#[trigger] transmissions[q]).0 == key implies {
        let left = set_swap_remove(transmissions[q].1.1, certificate_id);
        let after = detach(transmissions, key, certificate_id);
        &&& left.len() == 0 ==> after == swap_remove(transmissions, key)
        &&& left.len() > 0 ==> after.len() == transmissions.len() && after[q] == (key, (transmissions[q].1.0, left))
            && forall|i: int| 0 <= i < transmissions.len() && i != q ==> #[trigger] after[i] == transmissions[i]
    } by {
        let left = set_swap_remove(transmissions[q].1.1, certificate_id);
        law_upsert(transmissions, key, (transmissions[q].1.0, left));
        assert(transmissions[q].0 == key);
    }
}

/// Detaching a certificate from transmissions is detaching it from one after the other.
pub proof fn law_detach_all(
    transmissions: Transmissions,
    ids: Seq<TransmissionID>,
    id: TransmissionID,
    certificate_id: Field,
)
    ensures
        detach_all(transmissions, Seq::empty(), certificate_id) == transmissions,
        detach_all(transmissions, ids.push(id), certificate_id) == detach(
            detach_all(transmissions, ids, certificate_id),
            id.key(),
            certificate_id,
        ),
{
    assert(ids.push(id).drop_last() =~= ids);
}

/// Removing a certificate leaves the trackers as they are. It takes out the certificate, its
/// batch and its entry, and detaches it from its transmissions. Where it is not stored
/// nothing changes.
pub proof fn law_remove_places(m: StorageModel, certificate_id: Field)
    ensures
        !has_key(m.certificates, certificate_id) ==> m.remove(certificate_id) == m,
        lookup(m.certificates, certificate_id) matches Some(c) ==> {
            let after = m.remove(certificate_id);
            &&& after.current_height == m.current_height
            &&& after.current_round == m.current_round
            &&& after.gc_round == m.gc_round
            &&& after.max_gc_rounds == m.max_gc_rounds
            &&& after.certificates == swap_remove(m.certificates, certificate_id)
            &&& after.batch_ids == swap_remove(m.batch_ids, c.header.batch_id)
            &&& after.rounds == drop_entry(
                m.rounds,
                c.header.round,
                (certificate_id, c.header.batch_id, c.header.author),
            )
            &&& after.transmissions == detach_all(m.transmissions, c.header.transmission_ids, certificate_id)
        },
{
}

/// Removing certificates is removing one after the other.
pub proof fn law_remove_all(m: StorageModel, certificates: Seq<CertificateModel>, certificate: CertificateModel)
    ensures
        m.remove_all(Seq::empty()) == m,
        m.remove_all(certificates.push(certificate)) == m.remove_all(certificates).remove(certificate.certificate_id),
{
    assert(certificates.push(certificate).drop_last() =~= certificates);
}

/// The certificates of a round are those that its entries name, one by one and in order; the
/// genesis round has none.
pub proof fn law_certificates_in_round(m: StorageModel, round: u64)
    requires
        m.consistent(),
    ensures
        m.certificates_in_round(0).len() == 0,
        round != 0 ==> m.certificates_in_round(round).len() == entries_of(m.rounds, round).len(),
        round != 0 ==> forall|i: int|
            0 <= i < entries_of(m.rounds, round).len() ==> lookup(
                m.certificates,
                (#[trigger] entries_of(m.rounds, round)[i]).0,
            ) == Some(m.certificates_in_round(round)[i]),
        forall|c: CertificateModel| #[trigger]
            m.certificates_in_round(round).contains(c) <==> {
                &&& round != 0
                &&& lookup(m.certificates, c.certificate_id) == Some(c)
                &&& c.header.round == round
            },
{
    let entries = entries_of(m.rounds, round);
    let listed = entries.map_values(|entry: RoundEntry| entry.0);
    lemma_certificates_in_round(m, round);
    assert forall|c: CertificateModel| #[trigger] m.certificates_in_round(round).contains(c) <==> {
        &&& round != 0
        &&& lookup(m.certificates, c.certificate_id) == Some(c)
        &&& c.header.round == round
    } by {
        lemma_lookup_as_map(m.certificates, c.certificate_id);
    }
    lemma_lookup_as_map(m.rounds, round);
    assert forall|i: int| 0 <= i < entries.len() implies lookup(m.certificates, (#[trigger] entries[i]).0) is Some by {
        assert(m.round_map()[round].contains(entries[i]));
        lemma_lookup_as_map(m.certificates, entries[i].0);
    }
    assert(listed.no_duplicates()) by {
        assert forall|i: int, j: int| 0 <= i < listed.len() && 0 <= j < listed.len() && i != j implies listed[i]
            != listed[j] by {
            assert(m.round_map()[round].contains(entries[i]) && m.round_map()[round].contains(entries[j]));
            assert(entries.no_duplicates());
            assert(entries[i] != entries[j]);
        }
    }
    lemma_distinct_of_distinct(listed);
    assert forall|i: int| 0 <= i < listed.len() implies lookup(m.certificates, #[trigger] listed[i]) is Some by {
        assert(listed[i] == entries[i].0);
    }
    lemma_all_stored(m.certificates, listed);
    assert forall|i: int| round != 0 && 0 <= i < entries.len() implies lookup(
        m.certificates,
        (#[trigger] entries[i]).0,
    ) == Some(m.certificates_in_round(round)[i]) by {
        assert(listed[i] == entries[i].0);
    }
}

/// Items that differ are listed as they are.
proof fn lemma_distinct_of_distinct<A>(s: Seq<A>)
    requires
        s.no_duplicates(),
    ensures
        distinct(s) == s,
    decreases s.len(),
{
    if s.len() > 0 {
        let d = s.drop_last();
        lemma_distinct_of_distinct(d);
        assert(!d.contains(s.last())) by {
            if d.contains(s.last()) {
                assert(s[d.index_of(s.last())] == s[s.len() - 1]);
            }
        }
        assert(distinct(s) =~= s);
    }
}

/// Where all are stored, what is found under IDs is one certificate for each.
proof fn lemma_all_stored(certificates: Certificates, ids: Seq<Field>)
    requires
        forall|i: int| 0 <= i < ids.len() ==> lookup(certificates, #[trigger] ids[i]) is Some,
    ensures
        stored(certificates, ids).len() == ids.len(),
        forall|i: int|
            0 <= i < ids.len() ==> lookup(certificates, #[trigger] ids[i]) == Some(stored(certificates, ids)[i]),
    decreases ids.len(),
{
    if ids.len() > 0 {
        let d = ids.drop_last();
        assert forall|i: int| 0 <= i < d.len() implies lookup(certificates, #[trigger] d[i]) is Some by {
            assert(d[i] == ids[i]);
        }
        lemma_all_stored(certificates, d);
        assert(ids[ids.len() - 1] == ids.last());
        assert(lookup(certificates, ids[ids.len() - 1]) is Some);
        assert forall|i: int| 0 <= i < ids.len() implies lookup(certificates, #[trigger] ids[i]) == Some(
            stored(certificates, ids)[i],
        ) by {
            if i < d.len() {
                assert(d[i] == ids[i]);
            }
        }
    }
}

/// What is found under IDs is what is found under one after the other.
pub proof fn law_stored(certificates: Certificates, ids: Seq<Field>, id: Field)
    ensures
        stored(certificates, Seq::empty()).len() == 0,
        lookup(certificates, id) is None ==> stored(certificates, ids.push(id)) == stored(certificates, ids),
        lookup(certificates, id) matches Some(c) ==> stored(certificates, ids.push(id)) == stored(
            certificates,
            ids,
        ).push(c),
{
    assert(ids.push(id).drop_last() =~= ids);
}

/// The IDs of a round are those of its entries.
pub proof fn law_ids_in_round(m: StorageModel, round: u64, listed: Seq<Field>)
    requires
        listed.len() == entries_of(m.rounds, round).len(),
        forall|i: int| 0 <= i < listed.len() ==> #[trigger] listed[i] == entries_of(m.rounds, round)[i].0,
    ensures
        m.ids_in_round(round) == distinct(listed),
        round != 0 ==> m.certificates_in_round(round) == stored(m.certificates, m.ids_in_round(round)),
{
    assert(listed =~= entries_of(m.rounds, round).map_values(|entry: RoundEntry| entry.0));
}

/// Collecting rounds is removing the certificates of one round after the other, up to the
/// last one, which is included.
pub proof fn law_collect_rounds(m: StorageModel, from: int, to: int)
    ensures
        from > to ==> m.collect_rounds(from, to) == m,
        from <= to ==> m.collect_rounds(from, to) == m.collect_rounds(from, to - 1).remove_all(
            m.collect_rounds(from, to - 1).certificates_in_round(to as u64),
        ),
{
}

/// Moving to a round sets the current round. Where the round is further than `max_gc_rounds`
/// ahead of the GC round, the GC round follows, and the rounds from the old one up to the new
/// one, both included, are collected; else nothing else changes.
pub proof fn law_advance(m: StorageModel, round: u64)
    ensures
        round <= m.gc_round + m.max_gc_rounds ==> m.advance(round) == (StorageModel { current_round: round, ..m }),
        round > m.gc_round + m.max_gc_rounds ==> {
            let gc_round = (round - m.max_gc_rounds) as u64;
            m.advance(round) == (StorageModel {
                gc_round,
                ..(StorageModel { current_round: round, ..m }).collect_rounds(m.gc_round as int, gc_round as int)
            })
        },
{
}

/// A node starts in round one or in the starting round of its committee, whichever is later,
/// with nothing stored.
pub proof fn law_opened(starting_round: u64, max_gc_rounds: u64)
    ensures
        ({
            let m = StorageModel::opened(starting_round, max_gc_rounds);
            &&& m.current_round >= 1
            &&& m.current_round >= starting_round
            &&& m.current_round == 1 || m.current_round == starting_round
            &&& m.max_gc_rounds == max_gc_rounds
            &&& m.gc_round == 0 || m.gc_round + max_gc_rounds == m.current_round
            &&& m.gc_round + max_gc_rounds >= m.current_round
            &&& m.current_height == 0
            &&& m.rounds.len() == 0 && m.certificates.len() == 0
            &&& m.batch_ids.len() == 0 && m.transmissions.len() == 0
        }),
{
}

/// Syncing the height takes it to that of the block where the block is higher, and never
/// down; nothing else changes.
pub proof fn law_sync_height(m: StorageModel, height: u32)
    ensures
        ({
            let after = m.sync_height(height);
            &&& after.current_height >= height
            &&& after.current_height >= m.current_height
            &&& after.current_height == height || after.current_height == m.current_height
            &&& after == (StorageModel { current_height: after.current_height, ..m })
        }),
{
}

/// Syncing the round takes the storage to that of the block, which is round one at least,
/// where the block is further, and changes nothing where it is not.
pub proof fn law_sync_round(m: StorageModel, round: u64)
    ensures
        round <= m.current_round && m.current_round >= 1 ==> m.sync_round(round) == m,
        round > m.current_round ==> m.sync_round(round) == m.advance(round),
        m.current_round == 0 && round == 0 ==> m.sync_round(round) == m.advance(1),
{
}

/// Moving to a round by way of an earlier one is moving there at once.
pub proof fn law_advance_in_steps(m: StorageModel, first: u64, second: u64)
    requires
        m.consistent(),
        first <= second,
    ensures
        m.advance(first).advance(second) == m.advance(second),
{
    let g1 = minus(first, m.max_gc_rounds);
    let g2 = minus(second, m.max_gc_rounds);
    let gc = m.gc_round;
    let m1 = StorageModel { current_round: first, ..m };
    let m2 = StorageModel { current_round: second, ..m };
    lemma_same_maps(m, m1);
    lemma_same_maps(m, m2);
    if g1 > gc {
        lemma_collect_ignores_trackers(m, m1, gc as int, g1 as int);
        let c1 = m1.collect_rounds(gc as int, g1 as int);
        let mid = StorageModel { gc_round: g1, ..c1 };
        assert(m.advance(first) == mid);
        let moved = StorageModel { current_round: second, ..mid };
        lemma_collect_ignores_trackers(m, m2, gc as int, g1 as int);
        let c2 = m2.collect_rounds(gc as int, g1 as int);
        if g2 > g1 {
            lemma_collect_splits(m2, gc as int, g1 as int, g2 as int);
            lemma_collect_ignores_trackers(c2, moved, g1 as int, g2 as int);
            lemma_collect_ignores_trackers(c2, c2, g1 as int, g2 as int);
            assert(mid.advance(second) =~= m.advance(second));
        } else {
            assert(mid.advance(second) =~= m.advance(second));
        }
    } else {
        assert(m.advance(first).advance(second) =~= m.advance(second));
    }
}

/// Collecting up to a round and then on from it is collecting all at once.
proof fn lemma_collect_splits(m: StorageModel, from: int, mid: int, to: int)
    requires
        m.consistent(),
        0 <= from <= mid <= to <= u64::MAX,
    ensures
        m.collect_rounds(from, to) == m.collect_rounds(from, mid).collect_rounds(mid, to),
    decreases to - mid,
{
    let half = m.collect_rounds(from, mid);
    if mid == to {
        lemma_collect_rounds(m, from, mid);
        lemma_certificates_in_round(half, mid as u64);
        let found = half.certificates_in_round(mid as u64);
        if found.len() > 0 {
            let c = found[0];
            assert(found.contains(c));
            assert(half.certificate_map().contains_key(c.certificate_id));
        }
        assert(found =~= Seq::<CertificateModel>::empty());
        assert(half.collect_rounds(mid, mid - 1) == half);
    } else {
        lemma_collect_splits(m, from, mid, to - 1);
    }
}

/// What is collected does not depend on the trackers.
proof fn lemma_collect_ignores_trackers(m: StorageModel, other: StorageModel, from: int, to: int)
    requires
        other.rounds == m.rounds,
        other.certificates == m.certificates,
        other.batch_ids == m.batch_ids,
        other.transmissions == m.transmissions,
    ensures
        other.collect_rounds(from, to) == (StorageModel {
            current_height: other.current_height,
            current_round: other.current_round,
            gc_round: other.gc_round,
            max_gc_rounds: other.max_gc_rounds,
            ..m.collect_rounds(from, to)
        }),
    decreases to - from + 1,
{
    if from <= to {
        lemma_collect_ignores_trackers(m, other, from, to - 1);
        let a = m.collect_rounds(from, to - 1);
        let b = other.collect_rounds(from, to - 1);
        lemma_remove_all_ignores_trackers(a, b, a.certificates_in_round(to as u64));
        assert(b.certificates_in_round(to as u64) == a.certificates_in_round(to as u64));
    }
}

proof fn lemma_remove_all_ignores_trackers(m: StorageModel, other: StorageModel, certificates: Seq<CertificateModel>)
    requires
        other.rounds == m.rounds,
        other.certificates == m.certificates,
        other.batch_ids == m.batch_ids,
        other.transmissions == m.transmissions,
    ensures
        other.remove_all(certificates) == (StorageModel {
            current_height: other.current_height,
            current_round: other.current_round,
            gc_round: other.gc_round,
            max_gc_rounds: other.max_gc_rounds,
            ..m.remove_all(certificates)
        }),
    decreases certificates.len(),
{
    if certificates.len() > 0 {
        lemma_remove_all_ignores_trackers(m, other, certificates.drop_last());
    }
}

} // verus!
