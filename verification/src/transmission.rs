//! Transmissions, and maps from their IDs.

use crate::ids::{same_key, TransmissionID, TransmissionKey};
use crate::ordered::{as_map, distinct_keys, has_key, lemma_position, lemma_swap_remove, lemma_upsert};
use crate::ordered::{position, swap_remove, upsert};
use vstd::prelude::*;

verus! {

/// A transmission, with its payload in encoded form.
#[derive(Debug, PartialEq, Eq)]
pub enum Transmission {
    /// A ratification.
    Ratification,
    /// A prover solution.
    Solution(Vec<u8>),
    /// A transaction.
    Transaction(Vec<u8>),
}

/// What a transmission says.
#[verifier::ext_equal]
pub enum TransmissionModel {
    /// A ratification.
    Ratification,
    /// A prover solution, by its bytes.
    Solution(Seq<u8>),
    /// A transaction, by its bytes.
    Transaction(Seq<u8>),
}

impl View for Transmission {
    type V = TransmissionModel;

    open spec fn view(&self) -> TransmissionModel {
        match *self {
            Transmission::Ratification => TransmissionModel::Ratification,
            Transmission::Solution(bytes) => TransmissionModel::Solution(bytes@),
            Transmission::Transaction(bytes) => TransmissionModel::Transaction(bytes@),
        }
    }
}

impl Clone for Transmission {
    fn clone(&self) -> (r: Self)
        ensures
            r@ == self@,
    {
        match self {
            Transmission::Ratification => Transmission::Ratification,
            Transmission::Solution(bytes) => {
                let copy = bytes.clone();
                assert(copy@ =~= bytes@);
                Transmission::Solution(copy)
            },
            Transmission::Transaction(bytes) => {
                let copy = bytes.clone();
                assert(copy@ =~= bytes@);
                Transmission::Transaction(copy)
            },
        }
    }
}

/// The keys and the contents of a list of transmissions.
pub open spec fn transmission_pairs(
    entries: Seq<(TransmissionID, Transmission)>,
) -> Seq<(TransmissionKey, TransmissionModel)> {
    entries.map_values(|e: (TransmissionID, Transmission)| (e.0.key(), e.1@))
}

/// A map from transmission IDs to transmissions.
#[derive(Debug)]
pub struct TransmissionMap {
    entries: Vec<(TransmissionID, Transmission)>,
}

impl View for TransmissionMap {
    type V = Map<TransmissionKey, TransmissionModel>;

    closed spec fn view(&self) -> Map<TransmissionKey, TransmissionModel> {
        as_map(transmission_pairs(self.entries@))
    }
}

impl TransmissionMap {
    /// No ID occurs twice.
    #[verifier::type_invariant]
    spec fn inv(self) -> bool {
        distinct_keys(transmission_pairs(self.entries@))
    }

    /// Returns an empty map.
    pub fn new() -> (r: Self)
        ensures
            r@ == Map::<TransmissionKey, TransmissionModel>::empty(),
    {
        let r = TransmissionMap { entries: Vec::new() };
        assert(r@ =~= Map::<TransmissionKey, TransmissionModel>::empty());
        r
    }

    /// Returns the position of the given key, or the number of entries if it is not there.
    fn find(entries: &Vec<(TransmissionID, Transmission)>, key: TransmissionKey) -> (r: usize)
        ensures
            r <= entries.len(),
            r == entries.len() <==> !has_key(transmission_pairs(entries@), key),
            r < entries.len() ==> entries@[r as int].0.key() == key,
    {
        let ghost pairs = transmission_pairs(entries@);
        let mut i: usize = 0;
        while i < entries.len()
            invariant
                i <= entries.len(),
                pairs == transmission_pairs(entries@),
                forall|j: int| 0 <= j < i ==> (#[trigger] pairs[j]).0 != key,
            decreases entries.len() - i,
        {
            assert(pairs[i as int].0 == entries@[i as int].0.key());
            if same_key(entries[i].0.key(), key) {
                return i;
            }
            i += 1;
        }
        i
    }

    /// Returns `true` if the map has a transmission for the given ID.
    pub fn contains_key(&self, id: &TransmissionID) -> (r: bool)
        ensures
            r == self@.contains_key(id.key()),
    {
        Self::find(&self.entries, id.key()) < self.entries.len()
    }

    /// Returns the transmission of the given ID.
    pub fn get(&self, id: &TransmissionID) -> (r: Option<&Transmission>)
        ensures
            match r {
                Some(t) => self@.contains_key(id.key()) && t@ == self@[id.key()],
                None => !self@.contains_key(id.key()),
            },
    {
        proof {
            use_type_invariant(self);
        }
        let i = Self::find(&self.entries, id.key());
        if i < self.entries.len() {
            proof {
                let pairs = transmission_pairs(self.entries@);
                assert(pairs[i as int].0 == id.key());
                lemma_position(pairs, i as int);
            }
            Some(&self.entries[i].1)
        } else {
            None
        }
    }

    /// Sets the transmission of the given ID.
    pub fn insert(&mut self, id: TransmissionID, transmission: Transmission)
        ensures
            final(self)@ == old(self)@.insert(id.key(), transmission@),
    {
        proof {
            use_type_invariant(&*self);
        }
        let ghost pairs = transmission_pairs(self.entries@);
        let mut entries: Vec<(TransmissionID, Transmission)> = Vec::new();
        std::mem::swap(&mut self.entries, &mut entries);
        let i = Self::find(&entries, id.key());
        proof {
            lemma_upsert(pairs, id.key(), transmission@);
        }
        let ghost after = upsert(pairs, id.key(), transmission@);
        if i < entries.len() {
            proof {
                assert(pairs[i as int].0 == id.key());
                lemma_position(pairs, i as int);
            }
            entries.set(i, (id, transmission));
            assert(transmission_pairs(entries@) =~= after);
        } else {
            entries.push((id, transmission));
            assert(transmission_pairs(entries@) =~= after);
        }
        self.entries = entries;
    }

    /// Takes the transmission of the given ID out of the map.
    pub fn remove(&mut self, id: &TransmissionID) -> (r: Option<Transmission>)
        ensures
            final(self)@ == old(self)@.remove(id.key()),
            match r {
                Some(t) => old(self)@.contains_key(id.key()) && t@ == old(self)@[id.key()],
                None => !old(self)@.contains_key(id.key()),
            },
    {
        proof {
            use_type_invariant(&*self);
        }
        let ghost pairs = transmission_pairs(self.entries@);
        let mut entries: Vec<(TransmissionID, Transmission)> = Vec::new();
        std::mem::swap(&mut self.entries, &mut entries);
        let i = Self::find(&entries, id.key());
        proof {
            lemma_swap_remove(pairs, id.key());
        }
        let ghost after = swap_remove(pairs, id.key());
        if i < entries.len() {
            proof {
                assert(pairs[i as int].0 == id.key());
                lemma_position(pairs, i as int);
            }
            let entry = entries.swap_remove(i);
            assert(transmission_pairs(entries@) =~= after);
            self.entries = entries;
            Some(entry.1)
        } else {
            self.entries = entries;
            None
        }
    }
}

impl Clone for TransmissionMap {
    fn clone(&self) -> (r: Self)
        ensures
            r@ == self@,
    {
        proof {
            use_type_invariant(self);
        }
        let mut entries: Vec<(TransmissionID, Transmission)> = Vec::new();
        let mut i: usize = 0;
        while i < self.entries.len()
            invariant
                i <= self.entries.len(),
                entries.len() == i,
                forall|j: int| 0 <= j < i ==> (#[trigger] entries@[j]).0 == self.entries@[j].0
                    && entries@[j].1@ == self.entries@[j].1@,
            decreases self.entries.len() - i,
        {
            entries.push((self.entries[i].0, self.entries[i].1.clone()));
            i += 1;
        }
        assert(transmission_pairs(entries@) =~= transmission_pairs(self.entries@));
        TransmissionMap { entries }
    }
}

impl Default for TransmissionMap {
    fn default() -> (r: Self)
        ensures
            r@ == Map::<TransmissionKey, TransmissionModel>::empty(),
    {
        TransmissionMap::new()
    }
}

} // verus!
