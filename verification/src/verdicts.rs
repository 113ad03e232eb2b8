//! What the storage answers to each request, in terms of what is stored and what is asked.

use crate::batch::{CertificateModel, HeaderModel};
use crate::committee::CommitteeModel;
use crate::context::ContextModel;
use crate::error::StorageError;
use crate::ids::{Address, Field, TransmissionID, TransmissionKey};
use crate::laws::law_read_after_insert;
use crate::meaning::{law_entries_of, law_first_outsider};
use crate::model::{declares, entries_of, first_outsider, minus, Provided, StorageModel};
use crate::ordered::{distinct, has_key, lookup, position};
use vstd::prelude::*;

verus! {

/// What is wrong with a transmission: it is stored with a certificate of a round before the
/// batch and above the GC round, or it is neither stored nor provided.
pub proof fn law_transmission_fault(m: StorageModel, round: u64, provided: Provided, id: TransmissionID)
    ensures
        m.transmission_fault(round, provided, id) == Some(StorageError::TransmissionFromPastRound) <==> exists|
            x: Field,
            c: CertificateModel,
        |
            {
                &&& lookup(m.transmissions, id.key()) is Some
                &&& lookup(m.transmissions, id.key()).unwrap().1.contains(x)
                &&& #[trigger] lookup(m.certificates, x) == Some(c)
                &&& m.gc_round < #[trigger] c.header.round
                &&& c.header.round < round
            },
        m.transmission_fault(round, provided, id) == Some(StorageError::MissingTransmission) <==> lookup(
            m.transmissions,
            id.key(),
        ) is None && !provided.contains_key(id.key()),
        m.transmission_fault(round, provided, id) matches Some(error) ==> error
            == StorageError::TransmissionFromPastRound || error == StorageError::MissingTransmission,
{
    if let Some(record) = lookup(m.transmissions, id.key()) {
        let ids = record.1;
        if m.any_before(ids, round) {
            let i = choose|i: int|
                0 <= i < ids.len() && (lookup(m.certificates, #[trigger] ids[i]) matches Some(c) && m.gc_round
                    < c.header.round < round);
            let c = lookup(m.certificates, ids[i]).unwrap();
            assert(ids.contains(ids[i]));
            assert(lookup(m.certificates, ids[i]) == Some(c) && m.gc_round < c.header.round);
        }
        assert forall|x: Field, c: CertificateModel|
            ids.contains(x) && #[trigger] lookup(m.certificates, x) == Some(c) && m.gc_round < #[trigger] c.header.round
                && c.header.round < round implies m.any_before(ids, round) by {
            let i = ids.index_of(x);
            assert(lookup(m.certificates, ids[i]) == Some(c));
        }
    }
}

/// What is wrong with the first transmission with which something is wrong is the answer, and
/// there is none where nothing is wrong with any.
pub proof fn law_transmissions_fault(m: StorageModel, round: u64, provided: Provided, ids: Seq<TransmissionID>)
    ensures
        forall|a: int|
            0 <= a < ids.len() && m.transmission_fault(round, provided, #[trigger] ids[a]) is Some && (forall|b: int|
                0 <= b < a ==> m.transmission_fault(round, provided, #[trigger] ids[b]) is None)
                ==> m.transmissions_fault(round, provided, ids) == m.transmission_fault(round, provided, ids[a]),
        (forall|a: int| 0 <= a < ids.len() ==> m.transmission_fault(round, provided, #[trigger] ids[a]) is None)
            <==> m.transmissions_fault(round, provided, ids) is None,
    decreases ids.len(),
{
    if ids.len() > 0 {
        let d = ids.drop_last();
        let n = ids.len() - 1;
        law_transmissions_fault(m, round, provided, d);
        assert forall|a: int| 0 <= a < n implies #[trigger] d[a] == ids[a] by {}
        assert(ids.last() == ids[n]);
        assert forall|a: int|
            0 <= a < ids.len() && m.transmission_fault(round, provided, #[trigger] ids[a]) is Some && (forall|b: int|
                0 <= b < a ==> m.transmission_fault(round, provided, #[trigger] ids[b]) is None) implies
            m.transmissions_fault(round, provided, ids) == m.transmission_fault(round, provided, ids[a]) by {
            if a < n {
                assert(m.transmission_fault(round, provided, d[a]) is Some);
            } else {
                assert forall|b: int| 0 <= b < d.len() implies m.transmission_fault(
                    round,
                    provided,
                    #[trigger] d[b],
                ) is None by {
                    assert(m.transmission_fault(round, provided, ids[b]) is None);
                }
            }
        }
        if m.transmissions_fault(round, provided, ids) is None {
            assert forall|a: int| 0 <= a < ids.len() implies m.transmission_fault(
                round,
                provided,
                #[trigger] ids[a],
            ) is None by {
                if a < n {
                    assert(m.transmission_fault(round, provided, d[a]) is None);
                }
            }
        }
        if forall|a: int| 0 <= a < ids.len() ==> m.transmission_fault(round, provided, #[trigger] ids[a]) is None {
            assert forall|b: int| 0 <= b < d.len() implies m.transmission_fault(round, provided, #[trigger] d[b]) is None by {
                assert(m.transmission_fault(round, provided, ids[b]) is None);
            }
            assert(m.transmission_fault(round, provided, ids[n]) is None);
        }
    }
}

/// The missing transmissions are exactly those that are listed and not stored, each as it
/// was provided.
pub proof fn law_missing(m: StorageModel, ids: Seq<TransmissionID>, provided: Provided)
    ensures
        forall|k: TransmissionKey| #[trigger]
            m.missing(ids, provided).contains_key(k) <==> {
                &&& exists|i: int| 0 <= i < ids.len() && (#[trigger] ids[i]).key() == k
                &&& forall|j: int| 0 <= j < m.transmissions.len() ==> (#[trigger] m.transmissions[j]).0 != k
            },
        forall|k: TransmissionKey| #[trigger]
            m.missing(ids, provided).contains_key(k) ==> m.missing(ids, provided)[k] == provided[k],
{
}

/// The authors of stored certificates are those that their headers name, one by one.
pub proof fn law_authors(m: StorageModel, ids: Seq<Field>)
    ensures
        m.authors(ids).len() == ids.len(),
        forall|i: int|
            0 <= i < ids.len() && lookup(m.certificates, ids[i]) is Some ==> #[trigger] m.authors(ids)[i] == lookup(
                m.certificates,
                ids[i],
            ).unwrap().header.author,
{
}

/// What is wrong with the first previous certificate with which something is wrong is the
/// answer: it is not stored, it is of another round, or its author is that of an earlier one.
pub proof fn law_previous_fault(m: StorageModel, previous_round: u64, ids: Seq<Field>, a: int)
    requires
        0 <= a <= ids.len(),
        forall|b: int|
            0 <= b < a ==> (lookup(m.certificates, #[trigger] ids[b]) matches Some(c) && c.header.round
                == previous_round),
        forall|b: int, e: int| 0 <= b < e < a ==> #[trigger] m.authors(ids)[b] != #[trigger] m.authors(ids)[e],
    ensures
        a == ids.len() ==> m.previous_fault(previous_round, ids) is None,
        a < ids.len() && lookup(m.certificates, ids[a]) is None ==> m.previous_fault(previous_round, ids) == Some(
            StorageError::MissingPreviousCertificate(ids[a]),
        ),
        a < ids.len() && (lookup(m.certificates, ids[a]) matches Some(c) && c.header.round != previous_round)
            ==> m.previous_fault(previous_round, ids) == Some(StorageError::PreviousCertificateFromOtherRound),
        a < ids.len() && (lookup(m.certificates, ids[a]) matches Some(c) && c.header.round == previous_round) && (
        exists|b: int| 0 <= b < a && #[trigger] m.authors(ids)[b] == m.authors(ids)[a]) ==> m.previous_fault(
            previous_round,
            ids,
        ) == Some(StorageError::DuplicatePreviousAuthor),
    decreases ids.len(),
{
    if ids.len() > 0 {
        let d = ids.drop_last();
        let n = ids.len() - 1;
        let authors = m.authors(ids);
        let before = m.authors(d);
        assert forall|b: int| 0 <= b < n implies #[trigger] d[b] == ids[b] && before[b] == authors[b] by {}
        assert(ids.last() == ids[n]);
        let e = if a <= n { a } else { n };
        assert forall|b: int| 0 <= b < e implies (lookup(m.certificates, #[trigger] d[b]) matches Some(c)
            && c.header.round == previous_round) by {
            assert(d[b] == ids[b]);
        }
        assert forall|b: int, f: int| 0 <= b < f < e implies #[trigger] m.authors(d)[b] != #[trigger] m.authors(d)[f] by {
            assert(before[b] == authors[b] && before[f] == authors[f]);
            assert(m.authors(ids)[b] != m.authors(ids)[f]);
        }
        law_previous_fault(m, previous_round, d, e);
        if a < n {
            assert(d[a] == ids[a]);
            if exists|b: int| 0 <= b < a && #[trigger] m.authors(ids)[b] == m.authors(ids)[a] {
                let b = choose|b: int| 0 <= b < a && #[trigger] m.authors(ids)[b] == m.authors(ids)[a];
                assert(m.authors(d)[b] == m.authors(d)[a]);
            }
        } else {
            assert(m.previous_fault(previous_round, d) is None);
            if lookup(m.certificates, ids[n]) is Some {
                let author = lookup(m.certificates, ids[n]).unwrap().header.author;
                assert(authors[n] == author);
                if before.contains(author) {
                    let b = before.index_of(author);
                    assert(authors[b] == authors[n]);
                    assert(m.authors(ids)[b] == m.authors(ids)[n]);
                }
                if exists|b: int| 0 <= b < n && #[trigger] m.authors(ids)[b] == m.authors(ids)[n] {
                    let b = choose|b: int| 0 <= b < n && #[trigger] m.authors(ids)[b] == m.authors(ids)[n];
                    assert(before[b] == author);
                    assert(before.contains(author));
                }
            }
        }
    }
}

/// What is wrong with the previous certificates of a batch, of which nothing is asked where
/// the previous round is not above the GC round: in turn, that there is no committee for the
/// previous round, that the round has no certificates, that more are named than there are
/// members, what is wrong with one of them, and that their authors are no quorum.
pub proof fn law_ancestry_fault(m: StorageModel, header: HeaderModel, context: ContextModel)
    ensures
        header.round == 0 || header.round - 1 <= m.gc_round ==> m.ancestry_fault(header, context) is None,
        header.round - 1 > m.gc_round ==> {
            let round = (header.round - 1) as u64;
            let ids = header.previous_certificate_ids;
            &&& context.previous_committee is None ==> m.ancestry_fault(header, context) == Some(
                StorageError::MissingPreviousCommittee,
            )
            &&& context.previous_committee matches Some(committee) ==> {
                &&& !has_key(m.rounds, round) ==> m.ancestry_fault(header, context) == Some(
                    StorageError::MissingPreviousCertificates,
                )
                &&& has_key(m.rounds, round) && ids.len() > committee.members.len() ==> m.ancestry_fault(
                    header,
                    context,
                ) == Some(StorageError::TooManyPreviousCertificates)
                &&& has_key(m.rounds, round) && ids.len() <= committee.members.len() ==> {
                    &&& m.previous_fault(round, ids) is Some ==> m.ancestry_fault(header, context)
                        == m.previous_fault(round, ids)
                    &&& m.previous_fault(round, ids) is None && !committee.quorum_reached(m.authors(ids))
                        ==> m.ancestry_fault(header, context) == Some(StorageError::PreviousQuorumNotReached)
                    &&& m.previous_fault(round, ids) is None && committee.quorum_reached(m.authors(ids))
                        ==> m.ancestry_fault(header, context) is None
                }
            }
        },
{
}

/// The reason for which a batch header is refused is the first of these that holds: its
/// batch is stored, there is no committee, its author is not listed in it, its timestamp is
/// not live, something is wrong with a transmission, something is wrong with the previous
/// certificates. Where none holds it passes.
pub proof fn law_header_refusal(m: StorageModel, header: HeaderModel, provided: Provided, context: ContextModel)
    ensures
        ({
            let answer = m.check_header(header, provided, context);
            let is_stored = exists|i: int|
                0 <= i < m.batch_ids.len() && (#[trigger] m.batch_ids[i]).0 == header.batch_id;
            let is_listed = context.committee is Some && exists|i: int|
                0 <= i < context.committee.unwrap().members.len() && (#[trigger] context.committee.unwrap().members[i]).0
                    == header.author;
            let is_live = context.earliest <= header.timestamp <= context.latest;
            let transmissions = m.transmissions_fault(header.round, provided, header.transmission_ids);
            let ancestry = m.ancestry_fault(header, context);
            if is_stored {
                answer is Err && answer->Err_0 == StorageError::BatchExists
            } else if context.committee is None {
                answer is Err && answer->Err_0 == StorageError::MissingCommittee
            } else if !is_listed {
                answer is Err && answer->Err_0 == StorageError::AuthorNotInCommittee(header.author)
            } else if !is_live {
                answer is Err && answer->Err_0 == StorageError::TimestampOutOfRange
            } else if transmissions is Some {
                answer is Err && Some(answer->Err_0) == transmissions
            } else if ancestry is Some {
                answer is Err && Some(answer->Err_0) == ancestry
            } else {
                answer is Ok && answer->Ok_0 == m.missing(header.transmission_ids, provided)
            }
        }),
{
}

/// A batch header passes exactly if:
/// - no stored batch has its ID;
/// - its author is listed in the committee;
/// - its timestamp is neither before the earliest nor after the latest that is live;
/// - each of its transmissions is stored or provided, and none is stored with a certificate
///   of a round before the batch and above the GC round;
/// - where the previous round is above the GC round, there is a committee for it, the round
///   has certificates, no more are named than there are members, all that are named are
///   stored, of that round and of different authors, and these authors are a quorum.
pub proof fn law_header_passes(m: StorageModel, header: HeaderModel, provided: Provided, context: ContextModel)
    ensures
        m.check_header(header, provided, context) is Ok <==> {
            let ids = header.transmission_ids;
            let previous = header.previous_certificate_ids;
            &&& forall|i: int| 0 <= i < m.batch_ids.len() ==> (#[trigger] m.batch_ids[i]).0 != header.batch_id
            &&& context.committee is Some
            &&& exists|i: int|
                0 <= i < context.committee.unwrap().members.len() && (#[trigger] context.committee.unwrap().members[i]).0
                    == header.author
            &&& context.earliest <= header.timestamp
            &&& header.timestamp <= context.latest
            &&& forall|a: int|
                0 <= a < ids.len() ==> lookup(m.transmissions, (#[trigger] ids[a]).key()) is Some
                    || provided.contains_key(ids[a].key())
            &&& forall|a: int, x: Field, c: CertificateModel|
                #![trigger ids[a], lookup(m.certificates, x), c.header.round]
                0 <= a < ids.len() && lookup(m.transmissions, ids[a].key()) is Some && lookup(
                    m.transmissions,
                    ids[a].key(),
                ).unwrap().1.contains(x) && lookup(m.certificates, x) == Some(c) ==> c.header.round <= m.gc_round
                    || c.header.round >= header.round
            &&& header.round > 0 && header.round - 1 > m.gc_round ==> {
                &&& context.previous_committee is Some
                &&& exists|i: int| 0 <= i < m.rounds.len() && (#[trigger] m.rounds[i]).0 == header.round - 1
                &&& previous.len() <= context.previous_committee.unwrap().members.len()
                &&& forall|a: int|
                    0 <= a < previous.len() ==> (lookup(m.certificates, #[trigger] previous[a]) matches Some(c)
                        && c.header.round == header.round - 1)
                &&& forall|a: int, b: int|
                    0 <= a < b < previous.len() ==> lookup(
                        m.certificates,
                        #[trigger] previous[a],
                    ).unwrap().header.author != lookup(m.certificates, #[trigger] previous[b]).unwrap().header.author
                &&& context.previous_committee.unwrap().quorum_reached(m.authors(previous))
            }
        },
{
    let ids = header.transmission_ids;
    let previous = header.previous_certificate_ids;
    law_header_refusal(m, header, provided, context);
    law_transmissions_fault(m, header.round, provided, ids);
    assert forall|a: int| 0 <= a < ids.len() implies (m.transmission_fault(header.round, provided, #[trigger] ids[a]) is None
        <==> {
        &&& lookup(m.transmissions, ids[a].key()) is Some || provided.contains_key(ids[a].key())
        &&& forall|x: Field, c: CertificateModel|
            #![trigger lookup(m.certificates, x), c.header.round]
            lookup(m.transmissions, ids[a].key()) is Some && lookup(
                m.transmissions,
                ids[a].key(),
            ).unwrap().1.contains(x) && lookup(m.certificates, x) == Some(c) ==> c.header.round <= m.gc_round
                || c.header.round >= header.round
    }) by {
        law_transmission_fault(m, header.round, provided, ids[a]);
    }
    law_ancestry_fault(m, header, context);
    if header.round > 0 && header.round - 1 > m.gc_round {
        let round = (header.round - 1) as u64;
        lemma_previous_in_order(m, round, previous);
    }
}

/// Previous certificates are in order exactly if all are stored, of the round, and of
/// different authors.
proof fn lemma_previous_in_order(m: StorageModel, round: u64, ids: Seq<Field>)
    ensures
        m.previous_fault(round, ids) is None <==> {
            &&& forall|a: int|
                0 <= a < ids.len() ==> (lookup(m.certificates, #[trigger] ids[a]) matches Some(c) && c.header.round
                    == round)
            &&& forall|a: int, b: int|
                0 <= a < b < ids.len() ==> lookup(m.certificates, #[trigger] ids[a]).unwrap().header.author != lookup(
                    m.certificates,
                    #[trigger] ids[b],
                ).unwrap().header.author
        },
    decreases ids.len(),
{
    if ids.len() > 0 {
        let d = ids.drop_last();
        let n = ids.len() - 1;
        lemma_previous_in_order(m, round, d);
        assert forall|a: int| 0 <= a < n implies #[trigger] d[a] == ids[a] by {}
        let before = m.authors(d);
        if m.previous_fault(round, ids) is None {
            assert forall|a: int| 0 <= a < ids.len() implies (lookup(m.certificates, #[trigger] ids[a]) matches Some(c)
                && c.header.round == round) by {
                if a < n {
                    assert(d[a] == ids[a]);
                }
            }
            assert forall|a: int, b: int| 0 <= a < b < ids.len() implies lookup(
                m.certificates,
                #[trigger] ids[a],
            ).unwrap().header.author != lookup(m.certificates, #[trigger] ids[b]).unwrap().header.author by {
                assert(d[a] == ids[a]);
                if b < n {
                    assert(d[b] == ids[b]);
                } else {
                    assert(before[a] == lookup(m.certificates, ids[a]).unwrap().header.author);
                    assert(before.contains(before[a]));
                }
            }
        }
        if (forall|a: int|
            0 <= a < ids.len() ==> (lookup(m.certificates, #[trigger] ids[a]) matches Some(c) && c.header.round
                == round)) && (forall|a: int, b: int|
            0 <= a < b < ids.len() ==> lookup(m.certificates, #[trigger] ids[a]).unwrap().header.author != lookup(
                m.certificates,
                #[trigger] ids[b],
            ).unwrap().header.author) {
            assert forall|a: int| 0 <= a < d.len() implies (lookup(m.certificates, #[trigger] d[a]) matches Some(c)
                && c.header.round == round) by {
                assert(d[a] == ids[a]);
            }
            assert forall|a: int, b: int| 0 <= a < b < d.len() implies lookup(
                m.certificates,
                #[trigger] d[a],
            ).unwrap().header.author != lookup(m.certificates, #[trigger] d[b]).unwrap().header.author by {
                assert(d[a] == ids[a] && d[b] == ids[b]);
            }
            let last = lookup(m.certificates, ids[n]).unwrap().header.author;
            if before.contains(last) {
                let a = before.index_of(last);
                assert(d[a] == ids[a]);
                assert(lookup(m.certificates, ids[a]).unwrap().header.author == last);
            }
        }
    }
}

/// An author is found in a round exactly if an entry of the round names it.
pub proof fn law_has_author_entry(m: StorageModel, round: u64, author: Address)
    requires
        m.wf(),
    ensures
        m.has_author(round, author) <==> exists|i: int, j: int|
            0 <= i < m.rounds.len() && m.rounds[i].0 == round && 0 <= j < m.rounds[i].1.len() && (
            #[trigger] m.rounds[i].1[j]).2 == author,
{
    law_entries_of(m.rounds, round);
    if m.has_author(round, author) {
        let p = position(m.rounds, round);
        assert(has_key(m.rounds, round));
        assert(m.rounds[p].0 == round);
        let j = choose|j: int|
            0 <= j < entries_of(m.rounds, round).len() && (#[trigger] entries_of(
                m.rounds,
                round,
            )[j]).2 == author;
        assert(m.rounds[p].1[j].2 == author);
    }
    if exists|i: int, j: int|
        0 <= i < m.rounds.len() && m.rounds[i].0 == round && 0 <= j < m.rounds[i].1.len() && (
        #[trigger] m.rounds[i].1[j]).2 == author {
        let (i, j) = choose|i: int, j: int|
            0 <= i < m.rounds.len() && m.rounds[i].0 == round && 0 <= j < m.rounds[i].1.len() && (
            #[trigger] m.rounds[i].1[j]).2 == author;
        assert(entries_of(m.rounds, round)[j].2 == author);
    }
}

/// The reason for which a certificate is refused is the first of these that holds: it is
/// stored, an entry of its round names its author, its header is refused, the timestamp of
/// one of its signatures is before the earliest or after the latest that is live, a signer is
/// not listed in the committee, the author and the signers, each counted once, are no quorum.
/// Where none holds it passes, with the answer for its header.
pub proof fn law_certificate_refusal(
    m: StorageModel,
    certificate: CertificateModel,
    signers: Seq<Address>,
    provided: Provided,
    context: ContextModel,
)
    requires
        m.wf(),
    ensures
        ({
            let answer = m.check_certificate(certificate, signers, provided, context);
            let header = certificate.header;
            let of_header = m.check_header(header, provided, context);
            let is_stored = exists|i: int|
                0 <= i < m.certificates.len() && (#[trigger] m.certificates[i]).0 == certificate.certificate_id;
            let has_author = exists|i: int, j: int|
                0 <= i < m.rounds.len() && m.rounds[i].0 == header.round && 0 <= j < m.rounds[i].1.len() && (
                #[trigger] m.rounds[i].1[j]).2 == header.author;
            let are_live = forall|i: int|
                0 <= i < certificate.signatures.len() ==> context.earliest <= (
                #[trigger] certificate.signatures[i]).1 && certificate.signatures[i].1 <= context.latest;
            let outsider = first_outsider(context.committee.unwrap(), signers);
            let quorum = context.committee.unwrap().quorum_reached(distinct(seq![header.author] + signers));
            if is_stored {
                answer is Err && answer->Err_0 == StorageError::CertificateExists
            } else if has_author {
                answer is Err && answer->Err_0 == StorageError::AuthorExists
            } else if of_header is Err {
                answer is Err && answer->Err_0 == of_header->Err_0
            } else if !are_live {
                answer is Err && answer->Err_0 == StorageError::TimestampOutOfRange
            } else if outsider is Some {
                answer is Err && answer->Err_0 == StorageError::SignerNotInCommittee(outsider.unwrap())
            } else if !quorum {
                answer is Err && answer->Err_0 == StorageError::QuorumNotReached
            } else {
                answer is Ok && answer->Ok_0 == of_header->Ok_0
            }
        }),
{
    let header = certificate.header;
    law_has_author_entry(m, header.round, header.author);
    let timestamps = certificate.timestamps();
    assert forall|i: int| 0 <= i < certificate.signatures.len() implies #[trigger] timestamps[i]
        == certificate.signatures[i].1 by {}
    if forall|i: int|
        0 <= i < certificate.signatures.len() ==> context.earliest <= (#[trigger] certificate.signatures[i]).1
            && certificate.signatures[i].1 <= context.latest {
        assert forall|i: int| 0 <= i < timestamps.len() implies context.is_live(#[trigger] timestamps[i]) by {
            assert(timestamps[i] == certificate.signatures[i].1);
        }
    }
    if context.are_live(timestamps) {
        assert forall|i: int| 0 <= i < certificate.signatures.len() implies context.earliest <= (
        #[trigger] certificate.signatures[i]).1 && certificate.signatures[i].1 <= context.latest by {
            assert(context.is_live(timestamps[i]));
        }
    }
}

/// A certificate passes exactly if it is not stored, no entry of its round names its author,
/// its header passes, the timestamps of all its signatures are live, all signers are listed
/// in the committee, and with the author they are a quorum.
pub proof fn law_certificate_passes(
    m: StorageModel,
    certificate: CertificateModel,
    signers: Seq<Address>,
    provided: Provided,
    context: ContextModel,
)
    requires
        m.wf(),
    ensures
        m.check_certificate(certificate, signers, provided, context) is Ok <==> {
            let header = certificate.header;
            &&& forall|i: int|
                0 <= i < m.certificates.len() ==> (#[trigger] m.certificates[i]).0 != certificate.certificate_id
            &&& forall|i: int, j: int|
                0 <= i < m.rounds.len() && m.rounds[i].0 == header.round && 0 <= j < m.rounds[i].1.len() ==> (
                #[trigger] m.rounds[i].1[j]).2 != header.author
            &&& m.check_header(header, provided, context) is Ok
            &&& forall|i: int|
                0 <= i < certificate.signatures.len() ==> context.earliest <= (#[trigger] certificate.signatures[i]).1
                    && certificate.signatures[i].1 <= context.latest
            &&& forall|i: int|
                0 <= i < signers.len() ==> has_key(context.committee.unwrap().members, #[trigger] signers[i])
            &&& context.committee.unwrap().quorum_reached(distinct(seq![header.author] + signers))
        },
{
    law_certificate_refusal(m, certificate, signers, provided, context);
    let committee = context.committee.unwrap();
    lemma_outsiders(committee, signers);
}

/// There is no outsider exactly if all addresses are listed.
proof fn lemma_outsiders(committee: CommitteeModel, addresses: Seq<Address>)
    ensures
        first_outsider(committee, addresses) is None <==> forall|i: int|
            0 <= i < addresses.len() ==> has_key(committee.members, #[trigger] addresses[i]),
    decreases addresses.len(),
{
    law_first_outsider(committee, addresses);
    if addresses.len() > 0 {
        let d = addresses.drop_last();
        let n = addresses.len() - 1;
        lemma_outsiders(committee, d);
        if first_outsider(committee, addresses) is None {
            assert forall|i: int| 0 <= i < addresses.len() implies has_key(
                committee.members,
                #[trigger] addresses[i],
            ) by {
                if i < n {
                    assert(d[i] == addresses[i]);
                }
            }
        }
    }
}

/// A request to insert a certificate is granted exactly if the certificate is of a round
/// above the GC round and passes its check, however far its round is from the current one,
/// and then the storage has the certificate with the transmissions that were missing. Else
/// the reason is that it is at or below the GC round, or the one that its check gives.
pub proof fn law_insert_is_granted(
    m: StorageModel,
    certificate: CertificateModel,
    signers: Seq<Address>,
    provided: Provided,
    context: ContextModel,
)
    ensures
        ({
            let answer = m.try_insert(certificate, signers, provided, context);
            let check = m.check_certificate(certificate, signers, provided, context);
            &&& answer is Ok <==> certificate.header.round > m.gc_round && check is Ok
            &&& answer is Ok ==> answer->Ok_0 == m.insert(certificate, check->Ok_0)
            &&& certificate.header.round <= m.gc_round ==> answer is Err && answer->Err_0
                == StorageError::CertificateAtOrBelowGcRound
            &&& certificate.header.round > m.gc_round && check is Err ==> answer is Err && answer->Err_0
                == check->Err_0
        }),
{
}

/// Whether a certificate is inserted does not depend on the height, the current round and
/// how many rounds are kept, but on the GC round and what is stored.
pub proof fn law_insert_ignores_trackers(
    m: StorageModel,
    current_height: u32,
    current_round: u64,
    max_gc_rounds: u64,
    certificate: CertificateModel,
    signers: Seq<Address>,
    provided: Provided,
    context: ContextModel,
)
    requires
        m.wf(),
    ensures
        ({
            let other = StorageModel { current_height, current_round, max_gc_rounds, ..m };
            let answer = m.try_insert(certificate, signers, provided, context);
            let of_other = other.try_insert(certificate, signers, provided, context);
            &&& answer is Ok <==> of_other is Ok
            &&& answer is Ok ==> of_other->Ok_0 == (StorageModel {
                current_height,
                current_round,
                max_gc_rounds,
                ..answer->Ok_0
            })
            &&& answer is Err ==> of_other->Err_0 == answer->Err_0
        }),
{
    let other = StorageModel { current_height, current_round, max_gc_rounds, ..m };
    let header = certificate.header;
    lemma_checks_ignore_trackers(m, other, header, provided, context);
    assert(other.rounds == m.rounds && other.wf());
    law_has_author_entry(m, header.round, header.author);
    law_has_author_entry(other, header.round, header.author);
}

/// The checks of a header do not depend on the trackers other than the GC round.
proof fn lemma_checks_ignore_trackers(
    m: StorageModel,
    other: StorageModel,
    header: HeaderModel,
    provided: Provided,
    context: ContextModel,
)
    requires
        other == (StorageModel {
            current_height: other.current_height,
            current_round: other.current_round,
            max_gc_rounds: other.max_gc_rounds,
            ..m
        }),
    ensures
        other.check_header(header, provided, context) == m.check_header(header, provided, context),
{
    lemma_transmissions_ignore_trackers(m, other, header.round, provided, header.transmission_ids);
    lemma_previous_ignores_trackers(m, other, minus(header.round, 1), header.previous_certificate_ids);
    assert(other.authors(header.previous_certificate_ids) =~= m.authors(header.previous_certificate_ids));
    assert(other.missing(header.transmission_ids, provided) =~= m.missing(header.transmission_ids, provided));
}

proof fn lemma_transmissions_ignore_trackers(
    m: StorageModel,
    other: StorageModel,
    round: u64,
    provided: Provided,
    ids: Seq<TransmissionID>,
)
    requires
        other.certificates == m.certificates,
        other.transmissions == m.transmissions,
        other.gc_round == m.gc_round,
    ensures
        other.transmissions_fault(round, provided, ids) == m.transmissions_fault(round, provided, ids),
    decreases ids.len(),
{
    if ids.len() > 0 {
        lemma_transmissions_ignore_trackers(m, other, round, provided, ids.drop_last());
        if let Some(record) = lookup(m.transmissions, ids.last().key()) {
            assert(other.any_before(record.1, round) == m.any_before(record.1, round));
        }
    }
}

proof fn lemma_previous_ignores_trackers(m: StorageModel, other: StorageModel, round: u64, ids: Seq<Field>)
    requires
        other.certificates == m.certificates,
    ensures
        other.previous_fault(round, ids) == m.previous_fault(round, ids),
    decreases ids.len(),
{
    if ids.len() > 0 {
        let d = ids.drop_last();
        lemma_previous_ignores_trackers(m, other, round, d);
        assert(other.authors(d) =~= m.authors(d));
    }
}

/// A certificate of a block is passed over exactly if it is at or below the GC round or
/// stored.
pub proof fn law_passes_over(m: StorageModel, certificate: CertificateModel)
    ensures
        m.passes_over(certificate) <==> {
            ||| certificate.header.round <= m.gc_round
            ||| exists|i: int| 0 <= i < m.certificates.len() && (#[trigger] m.certificates[i]).0
                == certificate.certificate_id
        },
{
}

/// What is fetched for a transmission that is listed, not stored and no ratification is what
/// the block has of it, and else what the ledger has of it, for solutions and transactions
/// alike. Nothing else is fetched.
pub proof fn law_fetched(
    m: StorageModel,
    ids: Seq<TransmissionID>,
    block: Provided,
    ledger: Provided,
    id: TransmissionID,
)
    ensures
        ({
            let fetched = m.fetched(ids, block, ledger);
            let is_listed = exists|i: int| 0 <= i < ids.len() && #[trigger] ids[i] == id;
            let is_stored = exists|j: int| 0 <= j < m.transmissions.len() && (#[trigger] m.transmissions[j]).0 == id.key();
            &&& is_listed && !is_stored && id !is Ratification ==> {
                &&& fetched.contains_key(id.key()) <==> block.contains_key(id.key()) || ledger.contains_key(id.key())
                &&& block.contains_key(id.key()) ==> fetched[id.key()] == block[id.key()]
                &&& !block.contains_key(id.key()) && ledger.contains_key(id.key()) ==> fetched[id.key()]
                    == ledger[id.key()]
            }
            &&& !is_listed || is_stored || id is Ratification ==> !fetched.contains_key(id.key())
        }),
{
    if declares(ids, id.key()) {
        let i = choose|i: int| 0 <= i < ids.len() && (#[trigger] ids[i]).key() == id.key();
        assert(TransmissionID::from_key(ids[i].key()) == ids[i]);
        assert(ids[i] == id);
    }
    if exists|i: int| 0 <= i < ids.len() && #[trigger] ids[i] == id {
        let i = choose|i: int| 0 <= i < ids.len() && #[trigger] ids[i] == id;
        assert(ids[i].key() == id.key());
    }
}

/// The ledger is asked for a transmission exactly if it is listed, not stored, no
/// ratification, and not in the block; and it is asked in the order of the list.
pub proof fn law_to_request(m: StorageModel, ids: Seq<TransmissionID>, block: Provided)
    requires
        ids.no_duplicates(),
    ensures
        forall|id: TransmissionID| #[trigger]
            m.to_request(ids, block).contains(id) <==> {
                &&& ids.contains(id)
                &&& !has_key(m.transmissions, id.key())
                &&& id !is Ratification
                &&& !block.contains_key(id.key())
            },
        forall|i: int, j: int, a: int, b: int|
            #![trigger m.to_request(ids, block)[i], m.to_request(ids, block)[j], ids[a], ids[b]]
            0 <= i < j < m.to_request(ids, block).len() && 0 <= a < ids.len() && 0 <= b < ids.len() && ids[a]
                == m.to_request(ids, block)[i] && ids[b] == m.to_request(ids, block)[j] ==> a < b,
    decreases ids.len(),
{
    let r = m.to_request(ids, block);
    if ids.len() > 0 {
        let d = ids.drop_last();
        let n = ids.len() - 1;
        let last = ids[n];
        law_to_request(m, d, block);
        let before = m.to_request(d, block);
        assert forall|id: TransmissionID| #[trigger] ids.contains(id) <==> d.contains(id) || id == last by {
            if d.contains(id) {
                assert(ids[d.index_of(id)] == id);
            }
            if ids.contains(id) {
                let i = ids.index_of(id);
                if i < n {
                    assert(d[i] == id);
                }
            }
        }
        assert forall|id: TransmissionID| #[trigger] r.contains(id) <==> before.contains(id) || (r.len() > before.len()
            && id == last) by {
            if before.contains(id) {
                assert(r[before.index_of(id)] == id);
            }
            if r.len() > before.len() {
                assert(r[before.len() as int] == last);
            }
            if r.contains(id) {
                let i = r.index_of(id);
                if i < before.len() {
                    assert(before[i] == id);
                }
            }
        }
        assert(last.key() == TransmissionID::Ratification.key() <==> last is Ratification) by {
            assert(TransmissionID::from_key(last.key()) == last);
        }
        assert forall|i: int, j: int, a: int, b: int|
            #![trigger r[i], r[j], ids[a], ids[b]]
            0 <= i < j < r.len() && 0 <= a < ids.len() && 0 <= b < ids.len() && ids[a] == r[i] && ids[b]
                == r[j] implies a < b by {
            assert(r[i] == before[i]);
            assert(before.contains(before[i]));
            assert(d.contains(r[i]));
            let at = d.index_of(r[i]);
            assert(ids[at] == ids[a]);
            assert(a < n);
            assert(d[a] == before[i]);
            if b < n {
                if j < before.len() {
                    assert(d[b] == before[j]);
                } else {
                    assert(ids[b] == ids[n]);
                }
            }
        }
    }
}

/// A request to sync a certificate that is passed over changes nothing. Else it is answered
/// as a request to insert the certificate with what was fetched.
pub proof fn law_sync(
    m: StorageModel,
    certificate: CertificateModel,
    signers: Seq<Address>,
    block: Provided,
    ledger: Provided,
    context: ContextModel,
)
    ensures
        ({
            let answer = m.try_sync(certificate, signers, block, ledger, context);
            let fetched = m.fetched(certificate.header.transmission_ids, block, ledger);
            let is_stored = exists|i: int|
                0 <= i < m.certificates.len() && (#[trigger] m.certificates[i]).0 == certificate.certificate_id;
            &&& certificate.header.round <= m.gc_round || is_stored ==> answer is Ok && answer->Ok_0 == m
            &&& certificate.header.round > m.gc_round && !is_stored ==> answer == m.try_insert(
                certificate,
                signers,
                fetched,
                context,
            )
        }),
{
}

/// Where a certificate is not passed over, each of its transmissions that is not stored is a
/// solution or a transaction of the block or else of the ledger, and it would be inserted
/// were it to come with these, syncing it inserts it: the certificate is read back, and so is
/// each of these transmissions, as the block has it where it does, and else as the ledger.
pub proof fn law_sync_reads_back(
    m: StorageModel,
    certificate: CertificateModel,
    signers: Seq<Address>,
    provided: Provided,
    block: Provided,
    ledger: Provided,
    context: ContextModel,
)
    requires
        m.wf(),
        certificate.header.wf(),
        m.try_insert(certificate, signers, provided, context) is Ok,
        forall|a: int|
            0 <= a < certificate.header.transmission_ids.len() ==> {
                let id = #[trigger] certificate.header.transmission_ids[a];
                ||| lookup(m.transmissions, id.key()) is Some
                ||| id !is Ratification && (block.contains_key(id.key()) || ledger.contains_key(id.key()))
            },
    ensures
        ({
            let answer = m.try_sync(certificate, signers, block, ledger, context);
            let after = answer->Ok_0;
            let ids = certificate.header.transmission_ids;
            &&& answer is Ok
            &&& lookup(after.certificates, certificate.certificate_id) == Some(certificate)
            &&& forall|a: int|
                0 <= a < ids.len() ==> {
                    let key = (#[trigger] ids[a]).key();
                    &&& lookup(after.transmissions, key) is Some
                    &&& lookup(after.transmissions, key).unwrap().0 == match lookup(m.transmissions, key) {
                        Some(record) => record.0,
                        None => if block.contains_key(key) {
                            block[key]
                        } else {
                            ledger[key]
                        },
                    }
                }
        }),
{
    let header = certificate.header;
    let ids = header.transmission_ids;
    let fetched = m.fetched(ids, block, ledger);
    assert forall|a: int| 0 <= a < ids.len() implies {
        &&& lookup(m.transmissions, (#[trigger] ids[a]).key()) is Some || fetched.contains_key(ids[a].key())
        &&& lookup(m.transmissions, ids[a].key()) is None ==> fetched[ids[a].key()] == if block.contains_key(
            ids[a].key(),
        ) {
            block[ids[a].key()]
        } else {
            ledger[ids[a].key()]
        }
    } by {
        law_fetched(m, ids, block, ledger, ids[a]);
    }
    law_header_passes(m, header, provided, context);
    law_header_passes(m, header, fetched, context);
    law_certificate_passes(m, certificate, signers, provided, context);
    law_certificate_passes(m, certificate, signers, fetched, context);
    law_insert_is_granted(m, certificate, signers, provided, context);
    law_insert_is_granted(m, certificate, signers, fetched, context);
    law_certificate_refusal(m, certificate, signers, fetched, context);
    law_header_refusal(m, header, fetched, context);
    law_sync(m, certificate, signers, block, ledger, context);
    let missing = m.missing(ids, fetched);
    law_read_after_insert(m, certificate, missing);
    assert forall|a: int| 0 <= a < ids.len() implies {
        let key = (#[trigger] ids[a]).key();
        lookup(m.transmissions, key) is None ==> missing[key] == fetched[key]
    } by {
        assert(declares(ids, ids[a].key()));
    }
    assert forall|a: int| 0 <= a < ids.len() implies declares(ids, (#[trigger] ids[a]).key()) by {}
}

/// Moving to the next round is refused exactly if a certificate of the next round is stored,
/// there is no current committee, or the committee starts later; the reason is the first of
/// these that holds, whatever else is stored.
pub proof fn law_increment(m: StorageModel, committee: Option<CommitteeModel>)
    requires
        m.current_round < u64::MAX,
    ensures
        m.increment_fault(committee) is None <==> {
            &&& forall|i: int| 0 <= i < m.rounds.len() ==> (#[trigger] m.rounds[i]).0 != m.current_round + 1
            &&& committee is Some
            &&& committee.unwrap().starting_round <= m.current_round + 1
        },
        m.increment_fault(committee) == Some(StorageError::NextRoundHasCertificates) <==> exists|i: int|
            0 <= i < m.rounds.len() && (#[trigger] m.rounds[i]).0 == m.current_round + 1,
        m.increment_fault(committee) == Some(StorageError::MissingCurrentCommittee) <==> (forall|i: int|
            0 <= i < m.rounds.len() ==> (#[trigger] m.rounds[i]).0 != m.current_round + 1) && committee is None,
        m.increment_fault(committee) == Some(StorageError::NextRoundBehindCommittee) <==> (forall|i: int|
            0 <= i < m.rounds.len() ==> (#[trigger] m.rounds[i]).0 != m.current_round + 1) && committee is Some
            && committee.unwrap().starting_round > m.current_round + 1,
{
}

/// The previous committee is of interest exactly where the previous round is above the GC
/// round.
pub proof fn law_previous_round_of_interest(m: StorageModel, header: HeaderModel)
    ensures
        m.previous_round_of_interest(header) matches Some(round) ==> round + 1 == header.round && round > m.gc_round,
        m.previous_round_of_interest(header) is None <==> header.round <= m.gc_round + 1,
{
}

/// Transmissions are covered exactly if each is stored or provided.
pub proof fn law_covers(m: StorageModel, ids: Seq<TransmissionID>, missing: Provided)
    ensures
        m.covers(ids, missing) <==> forall|a: int|
            0 <= a < ids.len() ==> has_key(m.transmissions, (#[trigger] ids[a]).key()) || missing.contains_key(
                ids[a].key(),
            ),
{
    if m.covers(ids, missing) {
        assert forall|a: int| 0 <= a < ids.len() implies has_key(m.transmissions, (#[trigger] ids[a]).key())
            || missing.contains_key(ids[a].key()) by {
            assert(declares(ids, ids[a].key()));
        }
    }
}

/// A storage starts empty, at height zero, in the given round, and with a GC round that is as
/// far behind it as rounds are kept.
pub proof fn law_initial(current_round: u64, max_gc_rounds: u64)
    ensures
        ({
            let m = StorageModel::initial(current_round, max_gc_rounds);
            &&& m.current_height == 0
            &&& m.current_round == current_round
            &&& m.max_gc_rounds == max_gc_rounds
            &&& current_round >= max_gc_rounds ==> m.gc_round + max_gc_rounds == current_round
            &&& current_round < max_gc_rounds ==> m.gc_round == 0
            &&& m.rounds.len() == 0
            &&& m.certificates.len() == 0
            &&& m.batch_ids.len() == 0
            &&& m.transmissions.len() == 0
        }),
{
}

} // verus!
