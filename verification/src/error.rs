//! The reasons for which the storage refuses a request.

use crate::ids::{Address, Field};
use vstd::prelude::*;

verus! {

/// The reason for which the storage refuses a request.
#[derive(Clone, Copy, Debug, PartialEq, Eq)]
pub enum StorageError {
    /// Certificates for the next round exist already.
    NextRoundHasCertificates,
    /// The ledger gives no current committee.
    MissingCurrentCommittee,
    /// The next round is behind the current committee.
    NextRoundBehindCommittee,
    /// The certificate round is at or below the GC round.
    CertificateAtOrBelowGcRound,
    /// The certificate exists in storage.
    CertificateExists,
    /// A certificate of this author for this round exists in storage.
    AuthorExists,
    /// The batch exists in storage.
    BatchExists,
    /// The ledger gives no committee for the batch round.
    MissingCommittee,
    /// The author is not in the committee for the batch round.
    AuthorNotInCommittee(Address),
    /// A timestamp is outside the allowed time range.
    TimestampOutOfRange,
    /// A declared transmission is from a past round.
    TransmissionFromPastRound,
    /// A declared transmission is neither in storage nor provided.
    MissingTransmission,
    /// The ledger gives no committee for the previous round.
    MissingPreviousCommittee,
    /// There are no certificates for the previous round in storage.
    MissingPreviousCertificates,
    /// There are more previous certificates than committee members.
    TooManyPreviousCertificates,
    /// A previous certificate is not in storage.
    MissingPreviousCertificate(Field),
    /// A previous certificate is not for the previous round.
    PreviousCertificateFromOtherRound,
    /// Two previous certificates have the same author.
    DuplicatePreviousAuthor,
    /// The previous certificates did not reach the quorum threshold.
    PreviousQuorumNotReached,
    /// A signer is not in the committee for the batch round.
    SignerNotInCommittee(Address),
    /// The signatures did not reach the quorum threshold.
    QuorumNotReached,
}

} // verus!
