//! Identifiers: field elements, addresses, and the IDs of transmissions.

use vstd::prelude::*;

verus! {

/// A field element, as the low and the high half of its canonical integer.
pub type Field = (u128, u128);

/// An account address, as the field element of its x-coordinate.
pub type Address = (u128, u128);

/// The commitment of a prover solution, as the three parts of its canonical encoding.
pub type PuzzleCommitment = (u128, u128, u128);

/// The ID of a transaction.
pub type TransactionID = (u128, u128);

/// An entry of a round: the certificate ID, the batch ID and the author.
pub type RoundEntry = (Field, Field, Address);

/// The form in which the ID of a transmission is looked up: its kind, then its parts.
pub type TransmissionKey = (u8, u128, u128, u128);

/// Returns `true` if the two field elements, or the two addresses, are the same.
pub fn same_field(a: Field, b: Field) -> (r: bool)
    ensures
        r == (a == b),
{
    a.0 == b.0 && a.1 == b.1
}

/// Returns `true` if the two keys are the same.
pub fn same_key(a: TransmissionKey, b: TransmissionKey) -> (r: bool)
    ensures
        r == (a == b),
{
    a.0 == b.0 && a.1 == b.1 && a.2 == b.2 && a.3 == b.3
}

/// The ID of a transmission.
#[derive(Clone, Copy, Debug, PartialEq, Eq)]
pub enum TransmissionID {
    /// A ratification.
    Ratification,
    /// A prover solution.
    Solution(PuzzleCommitment),
    /// A transaction.
    Transaction(TransactionID),
}

impl TransmissionID {
    /// The key under which the transmission is looked up.
    pub open spec fn spec_key(&self) -> TransmissionKey {
        match *self {
            TransmissionID::Ratification => (0u8, 0u128, 0u128, 0u128),
            TransmissionID::Solution(c) => (1u8, c.0, c.1, c.2),
            TransmissionID::Transaction(t) => (2u8, t.0, t.1, 0u128),
        }
    }

    /// Returns the key under which the transmission is looked up.
    #[verifier::when_used_as_spec(spec_key)]
    pub fn key(&self) -> (r: TransmissionKey)
        ensures
            r == self.spec_key(),
    {
        match *self {
            TransmissionID::Ratification => (0u8, 0u128, 0u128, 0u128),
            TransmissionID::Solution(c) => (1u8, c.0, c.1, c.2),
            TransmissionID::Transaction(t) => (2u8, t.0, t.1, 0u128),
        }
    }

    /// The transmission that a key stands for.
    pub open spec fn spec_from_key(key: TransmissionKey) -> TransmissionID {
        if key.0 == 0 {
            TransmissionID::Ratification
        } else if key.0 == 1 {
            TransmissionID::Solution((key.1, key.2, key.3))
        } else {
            TransmissionID::Transaction((key.1, key.2))
        }
    }

    /// Returns the transmission that a key stands for.
    #[verifier::when_used_as_spec(spec_from_key)]
    pub fn from_key(key: TransmissionKey) -> (r: TransmissionID)
        ensures
            r == Self::spec_from_key(key),
    {
        if key.0 == 0 {
            TransmissionID::Ratification
        } else if key.0 == 1 {
            TransmissionID::Solution((key.1, key.2, key.3))
        } else {
            TransmissionID::Transaction((key.1, key.2))
        }
    }
}

/// A transmission ID is the one that its own key stands for.
pub broadcast proof fn lemma_from_key_of_key(id: TransmissionID)
    ensures
        TransmissionID::from_key(#[trigger] id.key()) == id,
{
}

/// Two transmission IDs with the same key are the same ID.
pub proof fn lemma_keys_differ(a: TransmissionID, b: TransmissionID)
    requires
        a.key() == b.key(),
    ensures
        a == b,
{
    lemma_from_key_of_key(a);
    lemma_from_key_of_key(b);
}

} // verus!
