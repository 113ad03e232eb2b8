//! Batch headers and batch certificates.

use crate::ids::{lemma_keys_differ, same_field, same_key, Address, Field, TransmissionID};
use crate::ordered::{distinct, lemma_distinct};
use crate::signature::{signature_address, Signature};
use vstd::prelude::*;

verus! {

/// What a batch header says.
#[verifier::ext_equal]
pub struct HeaderModel {
    /// The batch ID.
    pub batch_id: Field,
    /// The author of the batch.
    pub author: Address,
    /// The round of the batch.
    pub round: u64,
    /// The timestamp of the batch.
    pub timestamp: i64,
    /// The IDs of the transmissions in the batch.
    pub transmission_ids: Seq<TransmissionID>,
    /// The IDs of the certificates of the previous round.
    pub previous_certificate_ids: Seq<Field>,
    /// The signature of the author, by its bytes.
    pub signature: Seq<u8>,
}

impl HeaderModel {
    /// No ID occurs twice.
    pub open spec fn wf(self) -> bool {
        self.transmission_ids.no_duplicates() && self.previous_certificate_ids.no_duplicates()
    }
}

/// The header of a batch.
#[derive(Debug, PartialEq, Eq)]
pub struct BatchHeader {
    batch_id: Field,
    author: Address,
    round: u64,
    timestamp: i64,
    transmission_ids: Vec<TransmissionID>,
    previous_certificate_ids: Vec<Field>,
    signature: Signature,
}

impl View for BatchHeader {
    type V = HeaderModel;

    closed spec fn view(&self) -> HeaderModel {
        HeaderModel {
            batch_id: self.batch_id,
            author: self.author,
            round: self.round,
            timestamp: self.timestamp,
            transmission_ids: self.transmission_ids@,
            previous_certificate_ids: self.previous_certificate_ids@,
            signature: self.signature@,
        }
    }
}

/// Returns the given transmission IDs, each once.
fn distinct_transmission_ids(ids: Vec<TransmissionID>) -> (r: Vec<TransmissionID>)
    ensures
        r@ == distinct(ids@),
{
    let mut r: Vec<TransmissionID> = Vec::new();
    let mut i: usize = 0;
    while i < ids.len()
        invariant
            i <= ids.len(),
            r@ == distinct(ids@.take(i as int)),
        decreases ids.len() - i,
    {
        let mut found = false;
        let mut j: usize = 0;
        while j < r.len()
            invariant
                i < ids.len(),
                j <= r.len(),
                found == r@.take(j as int).contains(ids@[i as int]),
            decreases r.len() - j,
        {
            let same = same_key(r[j].key(), ids[i].key());
            proof {
                let before = r@.take(j as int);
                let after = r@.take(j + 1);
                assert(after.drop_last() =~= before);
                assert(after =~= before.push(r@[j as int]));
                if same {
                    lemma_keys_differ(r@[j as int], ids@[i as int]);
                    assert(after[j as int] == ids@[i as int]);
                }
                if before.contains(ids@[i as int]) {
                    let k = before.index_of(ids@[i as int]);
                    assert(after[k] == ids@[i as int]);
                }
                if after.contains(ids@[i as int]) {
                    let k = after.index_of(ids@[i as int]);
                    if k < j {
                        assert(before[k] == ids@[i as int]);
                    }
                }
            }
            if same {
                found = true;
            }
            j += 1;
        }
        assert(r@.take(j as int) =~= r@);
        assert(ids@.take(i + 1).drop_last() =~= ids@.take(i as int));
        if !found {
            r.push(ids[i]);
        }
        i += 1;
    }
    assert(ids@.take(i as int) =~= ids@);
    r
}

/// Returns the given certificate IDs, each once.
pub(crate) fn distinct_fields(ids: Vec<Field>) -> (r: Vec<Field>)
    ensures
        r@ == distinct(ids@),
{
    let mut r: Vec<Field> = Vec::new();
    let mut i: usize = 0;
    while i < ids.len()
        invariant
            i <= ids.len(),
            r@ == distinct(ids@.take(i as int)),
        decreases ids.len() - i,
    {
        let found = contains_field(&r, ids[i]);
        assert(ids@.take(i + 1).drop_last() =~= ids@.take(i as int));
        if !found {
            r.push(ids[i]);
        }
        i += 1;
    }
    assert(ids@.take(i as int) =~= ids@);
    r
}

/// Returns `true` if the given field element is in the list.
fn contains_field(fields: &Vec<Field>, field: Field) -> (r: bool)
    ensures
        r == fields@.contains(field),
{
    let mut j: usize = 0;
    while j < fields.len()
        invariant
            j <= fields.len(),
            forall|k: int| 0 <= k < j ==> fields@[k] != field,
        decreases fields.len() - j,
    {
        if same_field(fields[j], field) {
            return true;
        }
        j += 1;
    }
    false
}

/// Returns a copy of the list.
fn copy_fields(fields: &Vec<Field>) -> (r: Vec<Field>)
    ensures
        r@ == fields@,
{
    let mut r: Vec<Field> = Vec::new();
    let mut i: usize = 0;
    while i < fields.len()
        invariant
            i <= fields.len(),
            r@ =~= fields@.take(i as int),
        decreases fields.len() - i,
    {
        r.push(fields[i]);
        i += 1;
    }
    assert(fields@.take(i as int) =~= fields@);
    r
}

/// Returns a copy of the list.
fn copy_transmission_ids(ids: &Vec<TransmissionID>) -> (r: Vec<TransmissionID>)
    ensures
        r@ == ids@,
{
    let mut r: Vec<TransmissionID> = Vec::new();
    let mut i: usize = 0;
    while i < ids.len()
        invariant
            i <= ids.len(),
            r@ =~= ids@.take(i as int),
        decreases ids.len() - i,
    {
        r.push(ids[i]);
        i += 1;
    }
    assert(ids@.take(i as int) =~= ids@);
    r
}

impl BatchHeader {
    /// No ID occurs twice.
    #[verifier::type_invariant]
    spec fn inv(self) -> bool {
        self.transmission_ids@.no_duplicates() && self.previous_certificate_ids@.no_duplicates()
    }

    /// Initializes a batch header. Of IDs that occur more than once, the first stays.
    pub fn new(
        batch_id: Field,
        author: Address,
        round: u64,
        timestamp: i64,
        transmission_ids: Vec<TransmissionID>,
        previous_certificate_ids: Vec<Field>,
        signature: Signature,
    ) -> (r: Self)
        ensures
            r@ == (HeaderModel {
                batch_id,
                author,
                round,
                timestamp,
                transmission_ids: distinct(transmission_ids@),
                previous_certificate_ids: distinct(previous_certificate_ids@),
                signature: signature@,
            }),
    {
        proof {
            lemma_distinct(transmission_ids@);
            lemma_distinct(previous_certificate_ids@);
        }
        BatchHeader {
            batch_id,
            author,
            round,
            timestamp,
            transmission_ids: distinct_transmission_ids(transmission_ids),
            previous_certificate_ids: distinct_fields(previous_certificate_ids),
            signature,
        }
    }

    /// Returns the batch ID.
    pub fn batch_id(&self) -> (r: Field)
        ensures
            r == self@.batch_id,
    {
        self.batch_id
    }

    /// Returns the author.
    pub fn author(&self) -> (r: Address)
        ensures
            r == self@.author,
    {
        self.author
    }

    /// Returns the round number.
    pub fn round(&self) -> (r: u64)
        ensures
            r == self@.round,
    {
        self.round
    }

    /// Returns the timestamp.
    pub fn timestamp(&self) -> (r: i64)
        ensures
            r == self@.timestamp,
    {
        self.timestamp
    }

    /// Returns the transmission IDs.
    pub fn transmission_ids(&self) -> (r: &Vec<TransmissionID>)
        ensures
            r@ == self@.transmission_ids,
            r@.no_duplicates(),
    {
        proof {
            use_type_invariant(self);
        }
        &self.transmission_ids
    }

    /// Returns the batch certificate IDs for the previous round.
    pub fn previous_certificate_ids(&self) -> (r: &Vec<Field>)
        ensures
            r@ == self@.previous_certificate_ids,
            r@.no_duplicates(),
    {
        proof {
            use_type_invariant(self);
        }
        &self.previous_certificate_ids
    }

    /// Returns the signature.
    pub fn signature(&self) -> (r: &Signature)
        ensures
            r@ == self@.signature,
    {
        &self.signature
    }
}

impl Clone for BatchHeader {
    fn clone(&self) -> (r: Self)
        ensures
            r@ == self@,
    {
        proof {
            use_type_invariant(self);
        }
        BatchHeader {
            batch_id: self.batch_id,
            author: self.author,
            round: self.round,
            timestamp: self.timestamp,
            transmission_ids: copy_transmission_ids(&self.transmission_ids),
            previous_certificate_ids: copy_fields(&self.previous_certificate_ids),
            signature: self.signature.clone(),
        }
    }
}

/// What a batch certificate says.
#[verifier::ext_equal]
pub struct CertificateModel {
    /// The certificate ID.
    pub certificate_id: Field,
    /// The batch header.
    pub header: HeaderModel,
    /// The signatures of the batch, by their bytes, each with its timestamp.
    pub signatures: Seq<(Seq<u8>, i64)>,
}

impl CertificateModel {
    /// The addresses that signed the batch.
    pub open spec fn signers(self) -> Seq<Address> {
        self.signatures.map_values(|s: (Seq<u8>, i64)| signature_address(s.0).unwrap())
    }

    /// The timestamps of the signatures.
    pub open spec fn timestamps(self) -> Seq<i64> {
        self.signatures.map_values(|s: (Seq<u8>, i64)| s.1)
    }

    /// The entry of the certificate in its round.
    pub open spec fn entry(self) -> (Field, Field, Address) {
        (self.certificate_id, self.header.batch_id, self.header.author)
    }
}

/// A certificate for a batch.
#[derive(Debug, PartialEq, Eq)]
pub struct BatchCertificate {
    certificate_id: Field,
    batch_header: BatchHeader,
    signatures: Vec<(Signature, i64)>,
}

/// The bytes and the timestamps of a list of signatures.
pub open spec fn signature_pairs(signatures: Seq<(Signature, i64)>) -> Seq<(Seq<u8>, i64)> {
    signatures.map_values(|s: (Signature, i64)| (s.0@, s.1))
}

impl View for BatchCertificate {
    type V = CertificateModel;

    closed spec fn view(&self) -> CertificateModel {
        CertificateModel {
            certificate_id: self.certificate_id,
            header: self.batch_header@,
            signatures: signature_pairs(self.signatures@),
        }
    }
}

impl BatchCertificate {
    /// Initializes a batch certificate.
    pub fn new(certificate_id: Field, batch_header: BatchHeader, signatures: Vec<(Signature, i64)>) -> (r: Self)
        ensures
            r@ == (CertificateModel {
                certificate_id,
                header: batch_header@,
                signatures: signature_pairs(signatures@),
            }),
    {
        BatchCertificate { certificate_id, batch_header, signatures }
    }

    /// Returns the certificate ID.
    pub fn certificate_id(&self) -> (r: Field)
        ensures
            r == self@.certificate_id,
    {
        self.certificate_id
    }

    /// Returns the batch header.
    pub fn batch_header(&self) -> (r: &BatchHeader)
        ensures
            r@ == self@.header,
            r@.wf(),
    {
        proof {
            use_type_invariant(&self.batch_header);
        }
        &self.batch_header
    }

    /// Returns the batch ID.
    pub fn batch_id(&self) -> (r: Field)
        ensures
            r == self@.header.batch_id,
    {
        self.batch_header.batch_id()
    }

    /// Returns the author.
    pub fn author(&self) -> (r: Address)
        ensures
            r == self@.header.author,
    {
        self.batch_header.author()
    }

    /// Returns the round.
    pub fn round(&self) -> (r: u64)
        ensures
            r == self@.header.round,
    {
        self.batch_header.round()
    }

    /// Returns the transmission IDs.
    pub fn transmission_ids(&self) -> (r: &Vec<TransmissionID>)
        ensures
            r@ == self@.header.transmission_ids,
            r@.no_duplicates(),
    {
        self.batch_header.transmission_ids()
    }

    /// Returns the signatures of the batch ID from the committee, each with its timestamp.
    pub fn signatures(&self) -> (r: &Vec<(Signature, i64)>)
        ensures
            signature_pairs(r@) == self@.signatures,
    {
        &self.signatures
    }

    /// Returns the addresses that signed the batch.
    pub fn signers(&self) -> (r: Vec<Address>)
        ensures
            r@ == self@.signers(),
    {
        let mut r: Vec<Address> = Vec::new();
        let mut i: usize = 0;
        while i < self.signatures.len()
            invariant
                i <= self.signatures.len(),
                r.len() == i,
                self@.signers().len() == self.signatures.len(),
                forall|j: int| 0 <= j < i ==> r@[j] == self@.signers()[j],
            decreases self.signatures.len() - i,
        {
            let address = self.signatures[i].0.to_address();
            r.push(address);
            i += 1;
        }
        assert(r@ =~= self@.signers());
        r
    }
}

impl Clone for BatchCertificate {
    fn clone(&self) -> (r: Self)
        ensures
            r@ == self@,
    {
        let mut signatures: Vec<(Signature, i64)> = Vec::new();
        let mut i: usize = 0;
        while i < self.signatures.len()
            invariant
                i <= self.signatures.len(),
                signatures.len() == i,
                forall|j: int| 0 <= j < i ==> (#[trigger] signatures@[j]).0@ == self.signatures@[j].0@
                    && signatures@[j].1 == self.signatures@[j].1,
            decreases self.signatures.len() - i,
        {
            signatures.push((self.signatures[i].0.clone(), self.signatures[i].1));
            i += 1;
        }
        assert(signature_pairs(signatures@) =~= signature_pairs(self.signatures@));
        BatchCertificate {
            certificate_id: self.certificate_id,
            batch_header: self.batch_header.clone(),
            signatures,
        }
    }
}

} // verus!
