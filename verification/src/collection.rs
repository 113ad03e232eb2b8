//! Garbage collection: which certificates it removes, and which it keeps.

use crate::batch::CertificateModel;
use crate::consistency::{lemma_detach_all, lemma_remove_consistent, lemma_remove_maps};
use crate::ids::{Field, RoundEntry, TransmissionKey};
use crate::model::{entries_of, minus, stored, StorageModel};
use crate::ordered::{lemma_distinct, lemma_lookup_as_map, lookup};
use vstd::prelude::*;

verus! {

/// Whether the ID is that of one of the certificates.
pub open spec fn is_id_of(certificates: Seq<CertificateModel>, id: Field) -> bool {
    exists|i: int| 0 <= i < certificates.len() && (#[trigger] certificates[i]).certificate_id == id
}

impl StorageModel {
    /// Whether `after` is this storage with some certificates gone and nothing else changed:
    /// what is still there is as it was.
    pub open spec fn shrinks_to(self, after: StorageModel) -> bool {
        &&& after.current_height == self.current_height
        &&& after.current_round == self.current_round
        &&& after.gc_round == self.gc_round
        &&& after.max_gc_rounds == self.max_gc_rounds
        &&& forall|id: Field| #[trigger]
            after.certificate_map().contains_key(id) ==> self.certificate_map().contains_key(id)
                && after.certificate_map()[id] == self.certificate_map()[id]
        &&& forall|k: TransmissionKey| #[trigger]
            after.transmission_map().contains_key(k) ==> self.transmission_map().contains_key(k)
                && after.transmission_map()[k].0 == self.transmission_map()[k].0
    }
}

/// Removing a certificate takes it out and leaves the rest.
pub proof fn lemma_remove_shrinks(m: StorageModel, certificate_id: Field)
    requires
        m.consistent(),
    ensures
        m.shrinks_to(m.remove(certificate_id)),
        forall|id: Field| #[trigger]
            m.remove(certificate_id).certificate_map().contains_key(id) <==> m.certificate_map().contains_key(id)
                && id != certificate_id,
{
    lemma_lookup_as_map(m.certificates, certificate_id);
    if m.certificate_map().contains_key(certificate_id) {
        lemma_remove_maps(m, certificate_id);
        lemma_detach_all(
            m.transmissions,
            m.certificate_map()[certificate_id].header.transmission_ids,
            certificate_id,
        );
    }
}

/// Removing certificates keeps the maps in agreement, takes those out and leaves the rest.
pub proof fn lemma_remove_all(m: StorageModel, certificates: Seq<CertificateModel>)
    requires
        m.consistent(),
    ensures
        m.remove_all(certificates).consistent(),
        m.shrinks_to(m.remove_all(certificates)),
        forall|id: Field| #[trigger]
            m.remove_all(certificates).certificate_map().contains_key(id) <==> m.certificate_map().contains_key(id)
                && !is_id_of(certificates, id),
    decreases certificates.len(),
{
    if certificates.len() > 0 {
        let d = certificates.drop_last();
        let last = certificates.last().certificate_id;
        lemma_remove_all(m, d);
        lemma_remove_consistent(m.remove_all(d), last);
        lemma_remove_shrinks(m.remove_all(d), last);
        assert forall|id: Field| is_id_of(certificates, id) <==> is_id_of(d, id) || id == last by {
            if is_id_of(d, id) {
                let i = choose|i: int| 0 <= i < d.len() && (#[trigger] d[i]).certificate_id == id;
                assert(certificates[i].certificate_id == id);
            }
            if id == last {
                assert(certificates[certificates.len() - 1].certificate_id == id);
            }
            if is_id_of(certificates, id) {
                let i = choose|i: int|
                    0 <= i < certificates.len() && (#[trigger] certificates[i]).certificate_id == id;
                if i < d.len() {
                    assert(d[i].certificate_id == id);
                }
            }
        }
    }
}

/// The certificates that are found under IDs are those of the storage with these IDs.
pub proof fn lemma_stored(m: StorageModel, ids: Seq<Field>)
    requires
        m.wf(),
        ids.no_duplicates(),
    ensures
        stored(m.certificates, ids).no_duplicates(),
        forall|c: CertificateModel| #[trigger]
            stored(m.certificates, ids).contains(c) <==> ids.contains(c.certificate_id) && lookup(
                m.certificates,
                c.certificate_id,
            ) == Some(c),
    decreases ids.len(),
{
    let found = stored(m.certificates, ids);
    if ids.len() > 0 {
        let d = ids.drop_last();
        let last = ids.last();
        lemma_stored(m, d);
        lemma_lookup_as_map(m.certificates, last);
        let before = stored(m.certificates, d);
        assert forall|id: Field| #[trigger] ids.contains(id) <==> d.contains(id) || id == last by {
            if d.contains(id) {
                assert(ids[d.index_of(id)] == id);
            }
            if id == last {
                assert(ids[ids.len() - 1] == id);
            }
            if ids.contains(id) {
                let i = ids.index_of(id);
                if i < d.len() {
                    assert(d[i] == id);
                }
            }
        }
        assert(!d.contains(last));
        if let Some(certificate) = lookup(m.certificates, last) {
            assert(certificate.certificate_id == last);
            assert(!before.contains(certificate));
            assert forall|c: CertificateModel| #[trigger]
                found.contains(c) <==> before.contains(c) || c == certificate by {
                if before.contains(c) {
                    assert(found[before.index_of(c)] == c);
                }
                if c == certificate {
                    assert(found[before.len() as int] == c);
                }
                if found.contains(c) {
                    let i = found.index_of(c);
                    if i < before.len() {
                        assert(before[i] == c);
                    }
                }
            }
            assert(found.no_duplicates()) by {
                assert forall|i: int, j: int|
                    0 <= i < found.len() && 0 <= j < found.len() && i != j implies found[i] != found[j] by {
                    if i == before.len() {
                        assert(before[j] == found[j]);
                    } else if j == before.len() {
                        assert(before[i] == found[i]);
                    } else {
                        assert(before[i] == found[i] && before[j] == found[j]);
                    }
                }
            }
        }
    }
}

/// The certificates of a round are those that are stored and of that round, each once:
/// none for the genesis round.
pub proof fn lemma_certificates_in_round(m: StorageModel, round: u64)
    requires
        m.consistent(),
    ensures
        m.certificates_in_round(round).no_duplicates(),
        forall|c: CertificateModel| #[trigger]
            m.certificates_in_round(round).contains(c) <==> {
                &&& round != 0
                &&& m.certificate_map().contains_key(c.certificate_id)
                &&& m.certificate_map()[c.certificate_id] == c
                &&& c.header.round == round
            },
{
    if round != 0 {
        let entries = entries_of(m.rounds, round);
        let listed = entries.map_values(|entry: RoundEntry| entry.0);
        let ids = m.ids_in_round(round);
        lemma_distinct(listed);
        lemma_lookup_as_map(m.rounds, round);
        lemma_stored(m, ids);
        assert forall|c: CertificateModel| #[trigger] m.certificates_in_round(round).contains(c) <==> {
            &&& m.certificate_map().contains_key(c.certificate_id)
            &&& m.certificate_map()[c.certificate_id] == c
            &&& c.header.round == round
        } by {
            lemma_lookup_as_map(m.certificates, c.certificate_id);
            if m.certificates_in_round(round).contains(c) {
                assert(ids.contains(c.certificate_id));
                assert(listed.contains(c.certificate_id));
                let i = listed.index_of(c.certificate_id);
                assert(entries.contains(entries[i]));
                assert(m.round_map()[round].contains(entries[i]));
            }
            if m.certificate_map().contains_key(c.certificate_id) && m.certificate_map()[c.certificate_id] == c
                && c.header.round == round {
                assert(m.round_map()[round].contains(c.entry()));
                let i = entries.index_of(c.entry());
                assert(listed[i] == c.certificate_id);
                assert(listed.contains(c.certificate_id));
                assert(ids.contains(c.certificate_id));
            }
        }
    } else {
        assert(m.certificates_in_round(round) =~= Seq::<CertificateModel>::empty());
    }
}

/// Collecting rounds removes their certificates, save those of the genesis round, and
/// leaves the rest.
pub proof fn lemma_collect_rounds(m: StorageModel, from: int, to: int)
    requires
        m.consistent(),
        0 <= from,
        to <= u64::MAX,
    ensures
        m.collect_rounds(from, to).consistent(),
        m.shrinks_to(m.collect_rounds(from, to)),
        forall|id: Field| #[trigger]
            m.collect_rounds(from, to).certificate_map().contains_key(id) <==> {
                let round = m.certificate_map()[id].header.round;
                m.certificate_map().contains_key(id) && (round == 0 || round < from || round > to)
            },
    decreases to - from + 1,
{
    if from <= to {
        lemma_collect_rounds(m, from, to - 1);
        let before = m.collect_rounds(from, to - 1);
        let gone = before.certificates_in_round(to as u64);
        lemma_certificates_in_round(before, to as u64);
        lemma_remove_all(before, gone);
        assert forall|id: Field| before.certificate_map().contains_key(id) implies (is_id_of(gone, id) <==> to != 0
            && before.certificate_map()[id].header.round == to) by {
            let c = before.certificate_map()[id];
            if is_id_of(gone, id) {
                let i = choose|i: int| 0 <= i < gone.len() && (#[trigger] gone[i]).certificate_id == id;
                assert(gone.contains(gone[i]));
            }
            if to != 0 && c.header.round == to {
                assert(gone.contains(c));
                let i = gone.index_of(c);
                assert(gone[i].certificate_id == id);
            }
        }
    }
}

/// Moving to a round keeps the maps in agreement. Where the GC round moves, it removes the
/// certificates from the last GC round up to the new one, save those of the genesis round,
/// and leaves the rest.
pub proof fn lemma_advance(m: StorageModel, round: u64)
    requires
        m.consistent(),
    ensures
        m.advance(round).consistent(),
        (StorageModel { current_round: round, gc_round: m.advance(round).gc_round, ..m }).shrinks_to(
            m.advance(round),
        ),
        forall|id: Field| #[trigger]
            m.advance(round).certificate_map().contains_key(id) <==> {
                let r = m.certificate_map()[id].header.round;
                &&& m.certificate_map().contains_key(id)
                &&& m.advance(round).gc_round > m.gc_round ==> r == 0 || r < m.gc_round || r > m.advance(round).gc_round
            },
{
    let moved = StorageModel { current_round: round, ..m };
    let gc_round = minus(round, m.max_gc_rounds);
    lemma_same_maps(m, moved);
    if gc_round > m.gc_round {
        lemma_collect_rounds(moved, m.gc_round as int, gc_round as int);
        lemma_same_maps(moved.collect_rounds(m.gc_round as int, gc_round as int), m.advance(round));
    }
}

/// There is nothing to collect where no round has entries.
pub proof fn lemma_collect_nothing(m: StorageModel, from: int, to: int)
    requires
        m.rounds.len() == 0,
    ensures
        m.collect_rounds(from, to) == m,
    decreases to - from + 1,
{
    if from <= to {
        lemma_collect_nothing(m, from, to - 1);
        let entries = entries_of(m.rounds, to as u64);
        assert(entries.map_values(|entry: RoundEntry| entry.0) =~= Seq::<Field>::empty());
        assert(m.certificates_in_round(to as u64) =~= Seq::<CertificateModel>::empty());
    }
}

/// Where no round has entries, moving to a round moves the trackers alone.
pub proof fn lemma_advance_empty(m: StorageModel, round: u64)
    requires
        m.rounds.len() == 0,
    ensures
        m.advance(round) == (StorageModel {
            current_round: round,
            gc_round: if minus(round, m.max_gc_rounds) > m.gc_round {
                minus(round, m.max_gc_rounds)
            } else {
                m.gc_round
            },
            ..m
        }),
{
    let moved = StorageModel { current_round: round, ..m };
    lemma_collect_nothing(moved, m.gc_round as int, minus(round, m.max_gc_rounds) as int);
}

/// Whether the maps agree does not depend on the height and the rounds.
pub proof fn lemma_same_maps(m: StorageModel, other: StorageModel)
    requires
        m.consistent(),
        other.rounds == m.rounds,
        other.certificates == m.certificates,
        other.batch_ids == m.batch_ids,
        other.transmissions == m.transmissions,
    ensures
        other.consistent(),
{
    assert forall|id: Field, b: Field| #[trigger] other.is_for_batch(id, b) == m.is_for_batch(id, b) by {}
    assert forall|b: Field| #[trigger] other.batch_map().contains_key(b) implies exists|id: Field| #[trigger]
        other.is_for_batch(id, b) by {
        let id = choose|id: Field| #[trigger] m.is_for_batch(id, b);
        assert(other.is_for_batch(id, b));
    }
}

} // verus!
