//! What inserting a certificate changes, removing it takes back.

use crate::consistency::{lemma_attach_all, lemma_last_is_new};
use crate::ids::{Field, RoundEntry, TransmissionID, TransmissionKey};
use crate::model::{add_entry, attach_all, declares, detach, detach_all, drop_entry, entries_of};
use crate::model::{Provided, Rounds, Transmissions};
use crate::ordered::{distinct_keys, has_key, lemma_position, lemma_set_swap_remove_new, lemma_swap_remove};
use crate::ordered::{lemma_swap_remove_new, lemma_upsert, lemma_upsert_same, lemma_upsert_twice, lookup};
use crate::ordered::{position, set_insert};
use vstd::prelude::*;

verus! {

/// Whether `after` is `before` with the certificate attached to those of the given
/// transmissions that are not done: new transmissions stand last.
pub open spec fn attached_but(
    before: Transmissions,
    after: Transmissions,
    ids: Seq<TransmissionID>,
    done: Seq<TransmissionID>,
    certificate_id: Field,
) -> bool {
    &&& distinct_keys(after)
    &&& after.len() >= before.len()
    &&& forall|i: int|
        0 <= i < before.len() ==> (#[trigger] after[i]) == (
            before[i].0,
            if declares(ids, before[i].0) && !declares(done, before[i].0) {
                (before[i].1.0, before[i].1.1.push(certificate_id))
            } else {
                before[i].1
            },
        )
    &&& forall|i: int|
        before.len() <= i < after.len() ==> {
            &&& (#[trigger] after[i]).1.1 == seq![certificate_id]
            &&& declares(ids, after[i].0)
            &&& !declares(done, after[i].0)
            &&& !has_key(before, after[i].0)
        }
}

/// Whether no transmission has the certificate, and each has one.
pub open spec fn is_free_of(transmissions: Transmissions, certificate_id: Field) -> bool {
    forall|i: int|
        0 <= i < transmissions.len() ==> !(#[trigger] transmissions[i]).1.1.contains(certificate_id)
            && transmissions[i].1.1.len() > 0
}

/// Attaching a new certificate changes the transmissions that are there in place, and puts
/// the others last.
pub proof fn lemma_attach_all_in_place(
    transmissions: Transmissions,
    ids: Seq<TransmissionID>,
    missing: Provided,
    certificate_id: Field,
)
    requires
        distinct_keys(transmissions),
        is_free_of(transmissions, certificate_id),
        ids.no_duplicates(),
    ensures
        attached_but(
            transmissions,
            attach_all(transmissions, ids, missing, certificate_id),
            ids,
            Seq::empty(),
            certificate_id,
        ),
    decreases ids.len(),
{
    let none = Seq::<TransmissionID>::empty();
    if ids.len() > 0 {
        let d = ids.drop_last();
        let key = ids.last().key();
        lemma_last_is_new(ids);
        lemma_attach_all_in_place(transmissions, d, missing, certificate_id);
        lemma_attach_all(transmissions, ids, missing, certificate_id);
        let mid = attach_all(transmissions, d, missing, certificate_id);
        let after = attach_all(transmissions, ids, missing, certificate_id);
        if has_key(transmissions, key) {
            let p = position(transmissions, key);
            assert(transmissions[p].0 == key);
            assert(mid[p].0 == key);
            lemma_position(mid, p);
        } else {
            if has_key(mid, key) {
                let p = position(mid, key);
                assert(mid[p].0 == key);
                if p < transmissions.len() {
                    assert(transmissions[p].0 == key);
                }
            }
            assert(after == mid.push((key, (missing[key], seq![certificate_id]))));
        }
        assert forall|i: int| 0 <= i < transmissions.len() implies (#[trigger] after[i]) == (
            transmissions[i].0,
            if declares(ids, transmissions[i].0) && !declares(none, transmissions[i].0) {
                (transmissions[i].1.0, transmissions[i].1.1.push(certificate_id))
            } else {
                transmissions[i].1
            },
        ) by {
            assert(mid[i].0 == transmissions[i].0);
            assert(!declares(none, transmissions[i].0));
            if transmissions[i].0 == key {
                lemma_position(transmissions, i);
            } else {
                assert(after[i] == mid[i]);
            }
        }
        assert forall|i: int| transmissions.len() <= i < after.len() implies {
            &&& (#[trigger] after[i]).1.1 == seq![certificate_id]
            &&& declares(ids, after[i].0)
            &&& !declares(none, after[i].0)
            &&& !has_key(transmissions, after[i].0)
        } by {
            if i < mid.len() {
                assert(after[i] == mid[i]);
            }
        }
    }
}

/// Detaching a certificate from transmissions takes back that it was attached to them.
pub proof fn lemma_detach_all_in_place(
    before: Transmissions,
    after: Transmissions,
    ids: Seq<TransmissionID>,
    done: Seq<TransmissionID>,
    certificate_id: Field,
)
    requires
        distinct_keys(before),
        is_free_of(before, certificate_id),
        attached_but(before, after, ids, Seq::empty(), certificate_id),
        done.no_duplicates(),
        forall|k: TransmissionKey| declares(done, k) ==> #[trigger] declares(ids, k),
    ensures
        attached_but(before, detach_all(after, done, certificate_id), ids, done, certificate_id),
    decreases done.len(),
{
    if done.len() > 0 {
        let d = done.drop_last();
        let key = done.last().key();
        lemma_last_is_new(done);
        assert forall|k: TransmissionKey| declares(d, k) implies #[trigger] declares(ids, k) by {
            assert(declares(done, k));
        }
        lemma_detach_all_in_place(before, after, ids, d, certificate_id);
        let mid = detach_all(after, d, certificate_id);
        let end = detach_all(after, done, certificate_id);
        assert(end == detach(mid, key, certificate_id));
        assert(declares(done, key));
        lemma_swap_remove(mid, key);
        if has_key(before, key) {
            let p = position(before, key);
            assert(before[p].0 == key);
            assert(mid[p] == (key, (before[p].1.0, before[p].1.1.push(certificate_id))));
            lemma_position(mid, p);
            lemma_set_swap_remove_new(before[p].1.1, certificate_id);
            lemma_upsert(mid, key, before[p].1);
            assert(end == mid.update(p, before[p]));
            assert forall|i: int| 0 <= i < before.len() && i != p implies before[i].0 != key by {
                assert(before[i].0 != before[p].0);
            }
            assert forall|i: int| before.len() <= i < end.len() implies {
                &&& (#[trigger] end[i]).1.1 == seq![certificate_id]
                &&& declares(ids, end[i].0)
                &&& !declares(done, end[i].0)
                &&& !has_key(before, end[i].0)
            } by {
                assert(end[i] == mid[i]);
            }
        } else {
            assert forall|i: int| 0 <= i < before.len() implies before[i].0 != key by {
                if before[i].0 == key {
                    assert(has_key(before, key));
                }
            }
            if has_key(mid, key) {
                let p = position(mid, key);
                assert(mid[p].0 == key);
                assert(p >= before.len());
                assert(mid[p].1.1 == seq![certificate_id]);
                lemma_set_swap_remove_new(Seq::<Field>::empty(), certificate_id);
                assert(Seq::<Field>::empty().push(certificate_id) =~= seq![certificate_id]);
                assert forall|i: int| 0 <= i < end.len() implies #[trigger] end[i] == (if i == p {
                    mid[mid.len() - 1]
                } else {
                    mid[i]
                }) by {}
                assert forall|i: int| before.len() <= i < end.len() implies {
                    &&& (#[trigger] end[i]).1.1 == seq![certificate_id]
                    &&& declares(ids, end[i].0)
                    &&& !declares(done, end[i].0)
                    &&& !has_key(before, end[i].0)
                } by {
                    if i == p {
                        assert(mid[mid.len() - 1].0 != mid[p].0);
                    } else {
                        assert(mid[i].0 != mid[p].0);
                    }
                }
            } else {
                assert(end == mid);
                assert forall|i: int| before.len() <= i < end.len() implies !declares(
                    done,
                    (#[trigger] end[i]).0,
                ) by {
                    if end[i].0 == key {
                        assert(has_key(mid, key));
                    }
                }
            }
        }
    }
}

/// Detaching a certificate that was new gives back the transmissions, order included.
pub proof fn lemma_detach_undoes_attach(
    transmissions: Transmissions,
    ids: Seq<TransmissionID>,
    missing: Provided,
    certificate_id: Field,
)
    requires
        distinct_keys(transmissions),
        is_free_of(transmissions, certificate_id),
        ids.no_duplicates(),
    ensures
        detach_all(attach_all(transmissions, ids, missing, certificate_id), ids, certificate_id) == transmissions,
{
    let after = attach_all(transmissions, ids, missing, certificate_id);
    let end = detach_all(after, ids, certificate_id);
    lemma_attach_all_in_place(transmissions, ids, missing, certificate_id);
    lemma_detach_all_in_place(transmissions, after, ids, ids, certificate_id);
    if end.len() > transmissions.len() {
        assert(declares(ids, end[transmissions.len() as int].0));
    }
    assert(end =~= transmissions);
}

/// Attaching a certificate to transmissions that have it changes nothing.
pub proof fn lemma_attach_again(
    transmissions: Transmissions,
    ids: Seq<TransmissionID>,
    missing: Provided,
    certificate_id: Field,
)
    requires
        forall|i: int|
            0 <= i < ids.len() ==> (lookup(transmissions, (#[trigger] ids[i]).key()) matches Some(record)
                && record.1.contains(certificate_id)),
    ensures
        attach_all(transmissions, ids, missing, certificate_id) == transmissions,
    decreases ids.len(),
{
    if ids.len() > 0 {
        let d = ids.drop_last();
        assert forall|i: int| 0 <= i < d.len() implies (lookup(transmissions, (#[trigger] d[i]).key()) matches Some(
            record,
        ) && record.1.contains(certificate_id)) by {
            assert(d[i] == ids[i]);
        }
        lemma_attach_again(transmissions, d, missing, certificate_id);
        let last = ids[ids.len() - 1];
        let record = lookup(transmissions, last.key()).unwrap();
        assert(record.1.contains(certificate_id));
        lemma_upsert_same(transmissions, last.key(), record);
    }
}

/// Dropping an entry that was new gives back the rounds, order included.
pub proof fn lemma_drop_undoes_add(rounds: Rounds, round: u64, entry: RoundEntry)
    requires
        distinct_keys(rounds),
        !entries_of(rounds, round).contains(entry),
        has_key(rounds, round) ==> entries_of(rounds, round).len() > 0,
    ensures
        drop_entry(add_entry(rounds, round, entry), round, entry) == rounds,
{
    let entries = entries_of(rounds, round);
    let added = set_insert(entries, entry);
    lemma_upsert(rounds, round, added);
    lemma_set_swap_remove_new(entries, entry);
    if has_key(rounds, round) {
        lemma_upsert_twice(rounds, round, added, entries);
        lemma_upsert_same(rounds, round, entries);
    } else {
        lemma_swap_remove_new(rounds, round, added);
    }
}

} // verus!
