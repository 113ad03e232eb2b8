//! What the surroundings of the storage answer: the committees of a batch, the time
//! range in which timestamps are live, and the contents of a block.

use crate::committee::{Committee, CommitteeModel};
use crate::ids::{PuzzleCommitment, TransactionID, TransmissionID, TransmissionKey};
use crate::transmission::{Transmission, TransmissionMap, TransmissionModel};
use vstd::prelude::*;

verus! {

/// What a batch context says.
#[verifier::ext_equal]
pub struct ContextModel {
    /// The committee for the batch round.
    pub committee: Option<CommitteeModel>,
    /// The committee for the previous round.
    pub previous_committee: Option<CommitteeModel>,
    /// The earliest timestamp that is live.
    pub earliest: i64,
    /// The latest timestamp that is live.
    pub latest: i64,
}

impl ContextModel {
    /// Whether the timestamp is within the allowed time range.
    pub open spec fn is_live(self, timestamp: i64) -> bool {
        self.earliest <= timestamp <= self.latest
    }

    /// Whether all of the timestamps are within the allowed time range.
    pub open spec fn are_live(self, timestamps: Seq<i64>) -> bool {
        forall|i: int| 0 <= i < timestamps.len() ==> self.is_live(#[trigger] timestamps[i])
    }
}

/// The context in which a batch is checked: what the ledger answers about its round
/// and about the previous round, and the time range in which timestamps are live.
#[derive(Debug)]
pub struct BatchContext {
    /// The committee for the batch round, if the ledger has one.
    pub committee: Option<Committee>,
    /// The committee for the previous round, if the ledger has one.
    pub previous_committee: Option<Committee>,
    /// The earliest timestamp that is live.
    pub earliest: i64,
    /// The latest timestamp that is live.
    pub latest: i64,
}

/// What an answer of the ledger says.
pub open spec fn committee_model(committee: Option<&Committee>) -> Option<CommitteeModel> {
    match committee {
        Some(c) => Some(c@),
        None => None,
    }
}

impl View for BatchContext {
    type V = ContextModel;

    open spec fn view(&self) -> ContextModel {
        ContextModel {
            committee: match self.committee {
                Some(c) => Some(c@),
                None => None,
            },
            previous_committee: match self.previous_committee {
                Some(c) => Some(c@),
                None => None,
            },
            earliest: self.earliest,
            latest: self.latest,
        }
    }
}

impl BatchContext {
    /// Returns `true` if the timestamp is within the allowed time range.
    pub fn is_live(&self, timestamp: i64) -> (r: bool)
        ensures
            r == self@.is_live(timestamp),
    {
        self.earliest <= timestamp && timestamp <= self.latest
    }
}

/// What a block says.
#[verifier::ext_equal]
pub struct BlockModel {
    /// The height of the block.
    pub height: u32,
    /// The solutions and transactions in the block.
    pub transmissions: Map<TransmissionKey, TransmissionModel>,
}

/// A block: its height, and the solutions and transactions in it.
#[derive(Debug)]
pub struct Block {
    height: u32,
    transmissions: TransmissionMap,
}

impl View for Block {
    type V = BlockModel;

    closed spec fn view(&self) -> BlockModel {
        BlockModel { height: self.height, transmissions: self.transmissions@ }
    }
}

impl Block {
    /// Initializes a block.
    pub fn new(height: u32, transmissions: TransmissionMap) -> (r: Self)
        ensures
            r@ == (BlockModel { height, transmissions: transmissions@ }),
    {
        Block { height, transmissions }
    }

    /// Returns the height of the block.
    pub fn height(&self) -> (r: u32)
        ensures
            r == self@.height,
    {
        self.height
    }

    /// Returns the solution with the given commitment.
    pub fn get_solution(&self, commitment: PuzzleCommitment) -> (r: Option<&Transmission>)
        ensures
            match r {
                Some(t) => {
                    &&& self@.transmissions.contains_key(TransmissionID::Solution(commitment).key())
                    &&& t@ == self@.transmissions[TransmissionID::Solution(commitment).key()]
                },
                None => !self@.transmissions.contains_key(TransmissionID::Solution(commitment).key()),
            },
    {
        self.transmissions.get(&TransmissionID::Solution(commitment))
    }

    /// Returns the transaction with the given ID.
    pub fn get_transaction(&self, id: TransactionID) -> (r: Option<&Transmission>)
        ensures
            match r {
                Some(t) => {
                    &&& self@.transmissions.contains_key(TransmissionID::Transaction(id).key())
                    &&& t@ == self@.transmissions[TransmissionID::Transaction(id).key()]
                },
                None => !self@.transmissions.contains_key(TransmissionID::Transaction(id).key()),
            },
    {
        self.transmissions.get(&TransmissionID::Transaction(id))
    }
}

} // verus!
