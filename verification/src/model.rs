//! What the storage holds, and what each request does to it.

use crate::batch::{CertificateModel, HeaderModel};
use crate::committee::CommitteeModel;
use crate::context::ContextModel;
use crate::error::StorageError;
use crate::ids::{Address, Field, RoundEntry, TransmissionID, TransmissionKey};
use crate::ordered::{distinct, has_key, lookup, set_insert, set_swap_remove, swap_remove, upsert};
use crate::transmission::TransmissionModel;
use vstd::prelude::*;

verus! {

/// The rounds, each with its entries.
pub type Rounds = Seq<(u64, Seq<RoundEntry>)>;

/// The certificates by their IDs.
pub type Certificates = Seq<(Field, CertificateModel)>;

/// The transmissions by their keys, each with the IDs of the certificates that declare it.
pub type Transmissions = Seq<(TransmissionKey, (TransmissionModel, Seq<Field>))>;

/// The transmissions that a caller provides, by their keys.
pub type Provided = Map<TransmissionKey, TransmissionModel>;

/// The entries of a round: none for a round that is not there.
pub open spec fn entries_of(rounds: Rounds, round: u64) -> Seq<RoundEntry> {
    match lookup(rounds, round) {
        Some(entries) => entries,
        None => Seq::empty(),
    }
}

/// `rounds` with the entry in the given round.
pub open spec fn add_entry(rounds: Rounds, round: u64, entry: RoundEntry) -> Rounds {
    upsert(rounds, round, set_insert(entries_of(rounds, round), entry))
}

/// `rounds` without the entry in the given round, and without the round if that was
/// its last entry.
pub open spec fn drop_entry(rounds: Rounds, round: u64, entry: RoundEntry) -> Rounds {
    let left = set_swap_remove(entries_of(rounds, round), entry);
    if left.len() == 0 {
        swap_remove(rounds, round)
    } else {
        upsert(rounds, round, left)
    }
}

/// `transmissions` with the certificate among those of the given transmission, which
/// comes from `missing` where it is not there.
pub open spec fn attach(
    transmissions: Transmissions,
    key: TransmissionKey,
    missing: Provided,
    certificate_id: Field,
) -> Transmissions {
    match lookup(transmissions, key) {
        Some(record) => upsert(transmissions, key, (record.0, set_insert(record.1, certificate_id))),
        None => upsert(transmissions, key, (missing[key], seq![certificate_id])),
    }
}

/// `attach` for each of the given transmissions in turn.
pub open spec fn attach_all(
    transmissions: Transmissions,
    ids: Seq<TransmissionID>,
    missing: Provided,
    certificate_id: Field,
) -> Transmissions
    decreases ids.len(),
{
    if ids.len() == 0 {
        transmissions
    } else {
        attach(
            attach_all(transmissions, ids.drop_last(), missing, certificate_id),
            ids.last().key(),
            missing,
            certificate_id,
        )
    }
}

/// `transmissions` without the certificate among those of the given transmission, and
/// without the transmission if that was its last certificate.
pub open spec fn detach(transmissions: Transmissions, key: TransmissionKey, certificate_id: Field) -> Transmissions {
    match lookup(transmissions, key) {
        Some(record) => {
            let left = set_swap_remove(record.1, certificate_id);
            if left.len() == 0 {
                swap_remove(transmissions, key)
            } else {
                upsert(transmissions, key, (record.0, left))
            }
        },
        None => transmissions,
    }
}

/// `detach` for each of the given transmissions in turn.
pub open spec fn detach_all(
    transmissions: Transmissions,
    ids: Seq<TransmissionID>,
    certificate_id: Field,
) -> Transmissions
    decreases ids.len(),
{
    if ids.len() == 0 {
        transmissions
    } else {
        detach(detach_all(transmissions, ids.drop_last(), certificate_id), ids.last().key(), certificate_id)
    }
}

/// The certificates that are there under the given IDs, in the order of the IDs.
pub open spec fn stored(certificates: Certificates, ids: Seq<Field>) -> Seq<CertificateModel>
    decreases ids.len(),
{
    if ids.len() == 0 {
        Seq::empty()
    } else {
        match lookup(certificates, ids.last()) {
            Some(certificate) => stored(certificates, ids.drop_last()).push(certificate),
            None => stored(certificates, ids.drop_last()),
        }
    }
}

/// Whether one of the given transmissions has the key.
pub open spec fn declares(ids: Seq<TransmissionID>, key: TransmissionKey) -> bool {
    exists|i: int| 0 <= i < ids.len() && (#[trigger] ids[i]).key() == key
}

/// The first of the given addresses that is not in the committee.
pub open spec fn first_outsider(committee: CommitteeModel, addresses: Seq<Address>) -> Option<Address>
    decreases addresses.len(),
{
    if addresses.len() == 0 {
        None
    } else {
        match first_outsider(committee, addresses.drop_last()) {
            Some(address) => Some(address),
            None => if committee.is_member(addresses.last()) {
                None
            } else {
                Some(addresses.last())
            },
        }
    }
}

/// An outsider among the first `n` addresses is the first among all of them.
pub proof fn lemma_first_outsider_stays(committee: CommitteeModel, addresses: Seq<Address>, n: int)
    requires
        0 <= n <= addresses.len(),
        first_outsider(committee, addresses.take(n)) is Some,
    ensures
        first_outsider(committee, addresses) == first_outsider(committee, addresses.take(n)),
    decreases addresses.len(),
{
    if n == addresses.len() {
        assert(addresses.take(n) =~= addresses);
    } else {
        assert(addresses.drop_last().take(n) =~= addresses.take(n));
        lemma_first_outsider_stays(committee, addresses.drop_last(), n);
    }
}

/// `a - b`, or zero if `b` is above `a`.
pub open spec fn minus(a: u64, b: u64) -> u64 {
    if a >= b {
        (a - b) as u64
    } else {
        0
    }
}

/// What the storage holds.
#[verifier::ext_equal]
pub struct StorageModel {
    /// The current height.
    pub current_height: u32,
    /// The current round.
    pub current_round: u64,
    /// The round up to which garbage collection has occurred, inclusive.
    pub gc_round: u64,
    /// The maximum number of rounds to keep.
    pub max_gc_rounds: u64,
    /// The rounds, each with its entries.
    pub rounds: Rounds,
    /// The certificates by their IDs.
    pub certificates: Certificates,
    /// The rounds of the batches by their IDs.
    pub batch_ids: Seq<(Field, u64)>,
    /// The transmissions by their keys.
    pub transmissions: Transmissions,
}

impl StorageModel {
    /// The storage before anything is stored, in the given round.
    pub open spec fn initial(current_round: u64, max_gc_rounds: u64) -> StorageModel {
        StorageModel {
            current_height: 0,
            current_round,
            gc_round: minus(current_round, max_gc_rounds),
            max_gc_rounds,
            rounds: Seq::empty(),
            certificates: Seq::empty(),
            batch_ids: Seq::empty(),
            transmissions: Seq::empty(),
        }
    }

    /// The storage with the certificate in it.
    pub open spec fn insert(self, certificate: CertificateModel, missing: Provided) -> StorageModel {
        let header = certificate.header;
        StorageModel {
            rounds: add_entry(self.rounds, header.round, certificate.entry()),
            certificates: upsert(self.certificates, certificate.certificate_id, certificate),
            batch_ids: upsert(self.batch_ids, header.batch_id, header.round),
            transmissions: attach_all(
                self.transmissions,
                header.transmission_ids,
                missing,
                certificate.certificate_id,
            ),
            ..self
        }
    }

    /// The storage without the certificate.
    pub open spec fn remove(self, certificate_id: Field) -> StorageModel {
        match lookup(self.certificates, certificate_id) {
            Some(certificate) => {
                let header = certificate.header;
                StorageModel {
                    rounds: drop_entry(
                        self.rounds,
                        header.round,
                        (certificate_id, header.batch_id, header.author),
                    ),
                    certificates: swap_remove(self.certificates, certificate_id),
                    batch_ids: swap_remove(self.batch_ids, header.batch_id),
                    transmissions: detach_all(self.transmissions, header.transmission_ids, certificate_id),
                    ..self
                }
            },
            None => self,
        }
    }

    /// The storage without any of the given certificates.
    pub open spec fn remove_all(self, certificates: Seq<CertificateModel>) -> StorageModel
        decreases certificates.len(),
    {
        if certificates.len() == 0 {
            self
        } else {
            self.remove_all(certificates.drop_last()).remove(certificates.last().certificate_id)
        }
    }

    /// The IDs of the certificates of a round, in the order of its entries.
    pub open spec fn ids_in_round(self, round: u64) -> Seq<Field> {
        distinct(entries_of(self.rounds, round).map_values(|entry: RoundEntry| entry.0))
    }

    /// The certificates of a round, in the order of its entries: none for the genesis round.
    pub open spec fn certificates_in_round(self, round: u64) -> Seq<CertificateModel> {
        if round == 0 {
            Seq::empty()
        } else {
            stored(self.certificates, self.ids_in_round(round))
        }
    }

    /// The storage without the certificates of the rounds from `from` to `to`, both included.
    pub open spec fn collect_rounds(self, from: int, to: int) -> StorageModel
        decreases to - from + 1,
    {
        if from > to {
            self
        } else {
            let before = self.collect_rounds(from, to - 1);
            before.remove_all(before.certificates_in_round(to as u64))
        }
    }

    /// The storage in the given round: certificates of rounds that are now too old are gone.
    pub open spec fn advance(self, round: u64) -> StorageModel {
        let gc_round = minus(round, self.max_gc_rounds);
        let moved = StorageModel { current_round: round, ..self };
        if gc_round > self.gc_round {
            StorageModel { gc_round, ..moved.collect_rounds(self.gc_round as int, gc_round as int) }
        } else {
            moved
        }
    }

    /// The storage of a node that starts with a committee of the given starting round.
    pub open spec fn opened(starting_round: u64, max_gc_rounds: u64) -> StorageModel {
        StorageModel::initial(
            if starting_round >= 1 {
                starting_round
            } else {
                1
            },
            max_gc_rounds,
        )
    }

    /// The storage after its height was synced with a block of the given height.
    pub open spec fn sync_height(self, height: u32) -> StorageModel {
        StorageModel {
            current_height: if height > self.current_height {
                height
            } else {
                self.current_height
            },
            ..self
        }
    }

    /// The storage after its round was synced with a block of the given round.
    pub open spec fn sync_round(self, round: u64) -> StorageModel {
        let round = if round >= 1 {
            round
        } else {
            1
        };
        if round > self.current_round {
            self.advance(round)
        } else {
            self
        }
    }

    /// What stands against moving to the next round: it has certificates, there is no
    /// current committee, or the committee starts later.
    pub open spec fn increment_fault(self, current_committee: Option<CommitteeModel>) -> Option<StorageError> {
        let next_round = (self.current_round + 1) as u64;
        if has_key(self.rounds, next_round) {
            Some(StorageError::NextRoundHasCertificates)
        } else {
            match current_committee {
                None => Some(StorageError::MissingCurrentCommittee),
                Some(committee) => if next_round < committee.starting_round {
                    Some(StorageError::NextRoundBehindCommittee)
                } else {
                    None
                },
            }
        }
    }

    /// Whether there is a certificate of the author in the given round.
    pub open spec fn has_author(self, round: u64, author: Address) -> bool {
        exists|i: int|
            0 <= i < entries_of(self.rounds, round).len() && (#[trigger] entries_of(self.rounds, round)[i]).2 == author
    }

    /// Whether one of the given certificates is of a past round: one before the given round,
    /// and above the GC round.
    pub open spec fn any_before(self, ids: Seq<Field>, round: u64) -> bool {
        exists|i: int|
            0 <= i < ids.len() && (lookup(self.certificates, #[trigger] ids[i]) matches Some(c) && self.gc_round
                < c.header.round < round)
    }

    /// What is wrong with a transmission of a batch in the given round: it is stored and
    /// of a past round, or it is neither stored nor provided.
    pub open spec fn transmission_fault(self, round: u64, provided: Provided, id: TransmissionID) -> Option<
        StorageError,
    > {
        match lookup(self.transmissions, id.key()) {
            Some(record) => if self.any_before(record.1, round) {
                Some(StorageError::TransmissionFromPastRound)
            } else {
                None
            },
            None => if provided.contains_key(id.key()) {
                None
            } else {
                Some(StorageError::MissingTransmission)
            },
        }
    }

    /// What is wrong with the first faulty one of the given transmissions.
    pub open spec fn transmissions_fault(
        self,
        round: u64,
        provided: Provided,
        ids: Seq<TransmissionID>,
    ) -> Option<StorageError>
        decreases ids.len(),
    {
        if ids.len() == 0 {
            None
        } else {
            match self.transmissions_fault(round, provided, ids.drop_last()) {
                Some(error) => Some(error),
                None => self.transmission_fault(round, provided, ids.last()),
            }
        }
    }

    /// Those of the given transmissions that are not stored, as they are provided.
    pub open spec fn missing(self, ids: Seq<TransmissionID>, provided: Provided) -> Provided {
        Map::new(
            |key: TransmissionKey| declares(ids, key) && !has_key(self.transmissions, key),
            |key: TransmissionKey| provided[key],
        )
    }

    /// What is wrong with the first `n` transmissions is wrong with all of them.
    pub proof fn lemma_transmissions_fault_stays(
        self,
        round: u64,
        provided: Provided,
        ids: Seq<TransmissionID>,
        n: int,
    )
        requires
            0 <= n <= ids.len(),
            self.transmissions_fault(round, provided, ids.take(n)) is Some,
        ensures
            self.transmissions_fault(round, provided, ids) == self.transmissions_fault(round, provided, ids.take(n)),
        decreases ids.len(),
    {
        if n == ids.len() {
            assert(ids.take(n) =~= ids);
        } else {
            assert(ids.drop_last().take(n) =~= ids.take(n));
            self.lemma_transmissions_fault_stays(round, provided, ids.drop_last(), n);
        }
    }

    /// What is wrong with the first `n` previous certificates is wrong with all of them.
    pub proof fn lemma_previous_fault_stays(self, previous_round: u64, ids: Seq<Field>, n: int)
        requires
            0 <= n <= ids.len(),
            self.previous_fault(previous_round, ids.take(n)) is Some,
        ensures
            self.previous_fault(previous_round, ids) == self.previous_fault(previous_round, ids.take(n)),
        decreases ids.len(),
    {
        if n == ids.len() {
            assert(ids.take(n) =~= ids);
        } else {
            assert(ids.drop_last().take(n) =~= ids.take(n));
            self.lemma_previous_fault_stays(previous_round, ids.drop_last(), n);
        }
    }

    /// The authors of the given certificates.
    pub open spec fn authors(self, ids: Seq<Field>) -> Seq<Address> {
        ids.map_values(|id: Field| lookup(self.certificates, id).unwrap().header.author)
    }

    /// What is wrong with the first faulty one of the given previous certificates: it is
    /// not stored, it is not of the previous round, or its author is that of an earlier one.
    pub open spec fn previous_fault(self, previous_round: u64, ids: Seq<Field>) -> Option<StorageError>
        decreases ids.len(),
    {
        if ids.len() == 0 {
            None
        } else {
            match self.previous_fault(previous_round, ids.drop_last()) {
                Some(error) => Some(error),
                None => match lookup(self.certificates, ids.last()) {
                    None => Some(StorageError::MissingPreviousCertificate(ids.last())),
                    Some(certificate) => if certificate.header.round != previous_round {
                        Some(StorageError::PreviousCertificateFromOtherRound)
                    } else if self.authors(ids.drop_last()).contains(certificate.header.author) {
                        Some(StorageError::DuplicatePreviousAuthor)
                    } else {
                        None
                    },
                },
            }
        }
    }

    /// The round before that of a batch, where its committee is needed to check the batch:
    /// none where that round is garbage collected.
    pub open spec fn previous_round_of_interest(self, header: HeaderModel) -> Option<u64> {
        if minus(header.round, 1) > self.gc_round {
            Some(minus(header.round, 1))
        } else {
            None
        }
    }

    /// What is wrong with the previous certificates of a batch, of which nothing is asked
    /// where the previous round is garbage collected.
    pub open spec fn ancestry_fault(self, header: HeaderModel, context: ContextModel) -> Option<StorageError> {
        let previous_round = minus(header.round, 1);
        let ids = header.previous_certificate_ids;
        if previous_round <= self.gc_round {
            None
        } else {
            match context.previous_committee {
                None => Some(StorageError::MissingPreviousCommittee),
                Some(committee) => if !has_key(self.rounds, previous_round) {
                    Some(StorageError::MissingPreviousCertificates)
                } else if ids.len() > committee.members.len() {
                    Some(StorageError::TooManyPreviousCertificates)
                } else {
                    match self.previous_fault(previous_round, ids) {
                        Some(error) => Some(error),
                        None => if committee.quorum_reached(self.authors(ids)) {
                            None
                        } else {
                            Some(StorageError::PreviousQuorumNotReached)
                        },
                    }
                },
            }
        }
    }

    /// The answer to a check of a batch header.
    pub open spec fn check_header(self, header: HeaderModel, provided: Provided, context: ContextModel) -> Result<
        Provided,
        StorageError,
    > {
        if has_key(self.batch_ids, header.batch_id) {
            Err(StorageError::BatchExists)
        } else {
            match context.committee {
                None => Err(StorageError::MissingCommittee),
                Some(committee) => if !committee.is_member(header.author) {
                    Err(StorageError::AuthorNotInCommittee(header.author))
                } else if !context.is_live(header.timestamp) {
                    Err(StorageError::TimestampOutOfRange)
                } else {
                    match self.transmissions_fault(header.round, provided, header.transmission_ids) {
                        Some(error) => Err(error),
                        None => match self.ancestry_fault(header, context) {
                            Some(error) => Err(error),
                            None => Ok(self.missing(header.transmission_ids, provided)),
                        },
                    }
                },
            }
        }
    }

    /// The answer to a check of a certificate that the given addresses signed.
    pub open spec fn check_certificate(
        self,
        certificate: CertificateModel,
        signers: Seq<Address>,
        provided: Provided,
        context: ContextModel,
    ) -> Result<Provided, StorageError> {
        let header = certificate.header;
        if has_key(self.certificates, certificate.certificate_id) {
            Err(StorageError::CertificateExists)
        } else if self.has_author(header.round, header.author) {
            Err(StorageError::AuthorExists)
        } else {
            match self.check_header(header, provided, context) {
                Err(error) => Err(error),
                Ok(missing) => {
                    let committee = context.committee.unwrap();
                    if !context.are_live(certificate.timestamps()) {
                        Err(StorageError::TimestampOutOfRange)
                    } else {
                        match first_outsider(committee, signers) {
                            Some(signer) => Err(StorageError::SignerNotInCommittee(signer)),
                            None => if committee.quorum_reached(distinct(seq![header.author] + signers)) {
                                Ok(missing)
                            } else {
                                Err(StorageError::QuorumNotReached)
                            },
                        }
                    }
                },
            }
        }
    }

    /// The answer to a request to insert a certificate that the given addresses signed: the
    /// storage with it, if it is above the GC round and passes the check.
    pub open spec fn try_insert(
        self,
        certificate: CertificateModel,
        signers: Seq<Address>,
        provided: Provided,
        context: ContextModel,
    ) -> Result<StorageModel, StorageError> {
        if certificate.header.round <= self.gc_round {
            Err(StorageError::CertificateAtOrBelowGcRound)
        } else {
            match self.check_certificate(certificate, signers, provided, context) {
                Err(error) => Err(error),
                Ok(missing) => Ok(self.insert(certificate, missing)),
            }
        }
    }

    /// Whether the transmission is to be fetched: it is not stored, and no ratification.
    pub open spec fn wants(self, key: TransmissionKey) -> bool {
        !has_key(self.transmissions, key) && key != TransmissionID::Ratification.key()
    }

    /// Those of the given transmissions that are to be fetched and that the block does not
    /// have, in order.
    pub open spec fn to_request(self, ids: Seq<TransmissionID>, block: Provided) -> Seq<TransmissionID>
        decreases ids.len(),
    {
        if ids.len() == 0 {
            Seq::empty()
        } else {
            let before = self.to_request(ids.drop_last(), block);
            if self.wants(ids.last().key()) && !block.contains_key(ids.last().key()) {
                before.push(ids.last())
            } else {
                before
            }
        }
    }

    /// Those of the given transmissions that are to be fetched and that the block or else
    /// the ledger has.
    pub open spec fn fetched(self, ids: Seq<TransmissionID>, block: Provided, ledger: Provided) -> Provided {
        Map::new(
            |key: TransmissionKey|
                {
                    &&& declares(ids, key) && self.wants(key)
                    &&& block.contains_key(key) || ledger.contains_key(key)
                },
            |key: TransmissionKey|
                if block.contains_key(key) {
                    block[key]
                } else {
                    ledger[key]
                },
        )
    }

    /// Whether a certificate from a block is passed over: it is at or below the GC round,
    /// or stored.
    pub open spec fn passes_over(self, certificate: CertificateModel) -> bool {
        certificate.header.round <= self.gc_round || has_key(self.certificates, certificate.certificate_id)
    }

    /// The answer to a request to sync the certificate of a block, signed by the given
    /// addresses: as to one to insert it with what was fetched, unless it is passed over.
    pub open spec fn try_sync(
        self,
        certificate: CertificateModel,
        signers: Seq<Address>,
        block: Provided,
        ledger: Provided,
        context: ContextModel,
    ) -> Result<StorageModel, StorageError> {
        if self.passes_over(certificate) {
            Ok(self)
        } else {
            let fetched = self.fetched(certificate.header.transmission_ids, block, ledger);
            self.try_insert(certificate, signers, fetched, context)
        }
    }
}

} // verus!
