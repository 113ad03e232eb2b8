use narwhal_storage::batch::{BatchCertificate, BatchHeader};
use narwhal_storage::committee::Committee;
use narwhal_storage::context::BatchContext;
use narwhal_storage::error::StorageError;
use narwhal_storage::ids::{Address, Field, TransmissionID};
use narwhal_storage::signature::Signature;
use narwhal_storage::storage::Storage;
use narwhal_storage::transmission::{Transmission, TransmissionMap};
use snarkvm::prelude::{TestRng, Testnet3, ToBytes};

/// A validator: its address, and a signature of it.
struct Validator {
    address: Address,
    signature: Signature,
}

fn validators(count: usize) -> Vec<Validator> {
    let rng = &mut TestRng::default();
    (0..count)
        .map(|_| {
            let key = snarkvm::prelude::PrivateKey::<Testnet3>::new(rng).unwrap();
            let bytes = snarkvm::prelude::Address::try_from(&key).unwrap().to_bytes_le().unwrap();
            let mut low = [0u8; 16];
            let mut high = [0u8; 16];
            low.copy_from_slice(&bytes[..16]);
            high.copy_from_slice(&bytes[16..]);
            let message = [snarkvm::prelude::Field::from_u64(1)];
            let signature = key.sign(&message, rng).unwrap().to_bytes_le().unwrap();
            Validator {
                address: (u128::from_le_bytes(low), u128::from_le_bytes(high)),
                signature: Signature::from_bytes_le(signature).unwrap(),
            }
        })
        .collect()
}

/// A committee of the given validators, each with a stake of one.
fn committee(validators: &[Validator]) -> Committee {
    Committee::new(1, validators.iter().map(|v| (v.address, 1)).collect()).unwrap()
}

fn context(validators: &[Validator]) -> BatchContext {
    BatchContext {
        committee: Some(committee(validators)),
        previous_committee: Some(committee(validators)),
        earliest: 100,
        latest: 200,
    }
}

const TRANSACTION: TransmissionID = TransmissionID::Transaction((7, 8));
const SOLUTION: TransmissionID = TransmissionID::Solution((1, 2, 3));

/// A certificate with the ID `(n, 1)`, for the batch `(n, 2)`.
fn certificate(
    n: u128,
    author: &Validator,
    round: u64,
    ids: Vec<TransmissionID>,
    previous: Vec<Field>,
    signers: &[&Validator],
) -> BatchCertificate {
    let header = BatchHeader::new((n, 2), author.address, round, 150, ids, previous, author.signature.clone());
    let signatures = signers.iter().map(|v| (v.signature.clone(), 160)).collect();
    BatchCertificate::new((n, 1), header, signatures)
}

fn provided(ids: &[TransmissionID]) -> TransmissionMap {
    let mut map = TransmissionMap::new();
    for id in ids {
        map.insert(*id, Transmission::Transaction(vec![9, 9]));
    }
    map
}

/// A storage in which the first `count` of four validators have a certificate for round one,
/// with the IDs `(0, 1)`, `(1, 1)` and so on.
fn storage_with_round_one(v: &[Validator], count: usize) -> Storage {
    let mut storage = Storage::new(&committee(v), 10);
    for i in 0..count {
        let c = certificate(i as u128, &v[i], 1, vec![], vec![], &[&v[0], &v[1], &v[2]]);
        assert_eq!(storage.insert_certificate(c, TransmissionMap::new(), &context(v)), Ok(()));
    }
    storage
}

fn ids(count: u128) -> Vec<Field> {
    (0..count).map(|i| (i, 1)).collect()
}

fn header_error(storage: &Storage, c: &BatchCertificate, context: &BatchContext) -> Option<StorageError> {
    storage.check_batch_header(c.batch_header(), TransmissionMap::new(), context).err()
}

#[test]
fn insert_reads_back() {
    let v = validators(4);
    let mut storage = Storage::new(&committee(&v), 10);
    let c = certificate(5, &v[1], 1, vec![TRANSACTION, SOLUTION, TransmissionID::Ratification], vec![], &[&v[0], &v[3]]);
    let mut map = provided(&[TRANSACTION]);
    map.insert(SOLUTION, Transmission::Solution(vec![4]));
    map.insert(TransmissionID::Ratification, Transmission::Ratification);
    assert_eq!(storage.insert_certificate(c.clone(), map, &context(&v)), Ok(()));

    assert!(storage.contains_certificates_for_round(1));
    assert!(!storage.contains_certificates_for_round(2));
    assert!(storage.contains_certificate((5, 1)));
    assert!(!storage.contains_certificate((5, 2)));
    assert!(storage.contains_certificate_in_round_from(1, v[1].address));
    assert!(!storage.contains_certificate_in_round_from(1, v[0].address));
    assert!(!storage.contains_certificate_in_round_from(2, v[1].address));
    assert!(storage.contains_batch((5, 2)));
    assert!(!storage.contains_batch((5, 1)));
    assert!(storage.contains_transmission(TRANSACTION));
    assert!(storage.contains_transmission(SOLUTION));
    assert!(storage.contains_transmission(TransmissionID::Ratification));
    assert!(!storage.contains_transmission(TransmissionID::Transaction((7, 9))));
    assert_eq!(storage.get_transmission(TRANSACTION), Some(Transmission::Transaction(vec![9, 9])));
    assert_eq!(storage.get_transmission(SOLUTION), Some(Transmission::Solution(vec![4])));
    assert_eq!(storage.get_transmission(TransmissionID::Ratification), Some(Transmission::Ratification));
    assert_eq!(storage.get_transmission(TransmissionID::Transaction((8, 7))), None);
    assert_eq!(storage.get_round_for_certificate((5, 1)), Some(1));
    assert_eq!(storage.get_round_for_certificate((6, 1)), None);
    assert_eq!(storage.get_certificate_round((5, 1)), Some(1));
    assert_eq!(storage.get_certificate_round((6, 1)), None);
    assert_eq!(storage.get_round_for_batch((5, 2)), Some(1));
    assert_eq!(storage.get_round_for_batch((6, 2)), None);
    assert_eq!(storage.get_certificate((5, 1)), Some(c.clone()));
    assert_eq!(storage.get_certificate((6, 1)), None);
    assert_eq!(storage.get_certificates_for_round(1), vec![c]);
    assert_eq!(storage.get_certificates_for_round(2), vec![]);
}

#[test]
fn check_returns_what_is_missing() {
    let v = validators(4);
    let mut storage = Storage::new(&committee(&v), 10);
    let first = certificate(0, &v[0], 1, vec![TRANSACTION], vec![], &[&v[1], &v[2]]);
    assert_eq!(storage.insert_certificate(first, provided(&[TRANSACTION]), &context(&v)), Ok(()));
    // Of the declared transmissions one is stored; of the provided ones one is not declared.
    let c = certificate(1, &v[1], 1, vec![TRANSACTION, SOLUTION], vec![], &[&v[0], &v[2]]);
    let given = provided(&[TRANSACTION, SOLUTION, TransmissionID::Ratification]);
    let missing = storage.check_certificate(&c, given.clone(), &context(&v)).unwrap();
    assert!(missing.contains_key(&SOLUTION));
    assert!(!missing.contains_key(&TRANSACTION));
    assert!(!missing.contains_key(&TransmissionID::Ratification));
    assert_eq!(missing.get(&SOLUTION), Some(&Transmission::Transaction(vec![9, 9])));
    let missing = storage.check_batch_header(c.batch_header(), given, &context(&v)).unwrap();
    assert!(missing.contains_key(&SOLUTION) && !missing.contains_key(&TRANSACTION));
}

#[test]
fn stored_certificate_is_refused() {
    let v = validators(4);
    let mut storage = storage_with_round_one(&v, 1);
    let before = storage.rounds_iter();
    let c = certificate(0, &v[0], 1, vec![], vec![], &[&v[1], &v[2]]);
    let error = Err(StorageError::CertificateExists);
    assert_eq!(storage.insert_certificate(c, TransmissionMap::new(), &context(&v)), error);
    assert_eq!(storage.rounds_iter(), before);
}

#[test]
fn second_certificate_of_author_is_refused() {
    let v = validators(4);
    let mut storage = storage_with_round_one(&v, 1);
    let c = certificate(9, &v[0], 1, vec![], vec![], &[&v[1], &v[2]]);
    let error = Err(StorageError::AuthorExists);
    assert_eq!(storage.insert_certificate(c, TransmissionMap::new(), &context(&v)), error);
    assert!(!storage.contains_certificate((9, 1)));
}

#[test]
fn stored_batch_is_refused() {
    let v = validators(4);
    let mut storage = storage_with_round_one(&v, 1);
    // Another certificate, of another author, for the same batch.
    let header = BatchHeader::new((0, 2), v[1].address, 1, 150, vec![], vec![], v[1].signature.clone());
    let c = BatchCertificate::new((9, 1), header, vec![]);
    let error = Err(StorageError::BatchExists);
    assert_eq!(storage.insert_certificate(c, TransmissionMap::new(), &context(&v)), error);
}

#[test]
fn missing_committee_is_refused() {
    let v = validators(4);
    let storage = Storage::new(&committee(&v), 10);
    let c = certificate(0, &v[0], 1, vec![], vec![], &[&v[1], &v[2]]);
    let context = BatchContext { committee: None, ..context(&v) };
    assert_eq!(header_error(&storage, &c, &context), Some(StorageError::MissingCommittee));
}

#[test]
fn outside_author_is_refused() {
    let v = validators(5);
    let storage = Storage::new(&committee(&v[..4]), 10);
    let c = certificate(0, &v[4], 1, vec![], vec![], &[&v[1], &v[2]]);
    let error = StorageError::AuthorNotInCommittee(v[4].address);
    assert_eq!(header_error(&storage, &c, &context(&v[..4])), Some(error));
}

#[test]
fn timestamps_are_live_up_to_both_ends() {
    let v = validators(4);
    let storage = Storage::new(&committee(&v), 10);
    let c = certificate(0, &v[0], 1, vec![], vec![], &[&v[1], &v[2]]);
    // The batch has the timestamp 150.
    let range = |earliest, latest| BatchContext { earliest, latest, ..context(&v) };
    assert_eq!(header_error(&storage, &c, &range(150, 150)), None);
    assert_eq!(header_error(&storage, &c, &range(151, 200)), Some(StorageError::TimestampOutOfRange));
    assert_eq!(header_error(&storage, &c, &range(100, 149)), Some(StorageError::TimestampOutOfRange));
    // Its signatures have the timestamp 160.
    let check = |context: BatchContext| storage.check_certificate(&c, TransmissionMap::new(), &context).err();
    assert_eq!(check(range(150, 160)), None);
    assert_eq!(check(range(150, 159)), Some(StorageError::TimestampOutOfRange));
}

#[test]
fn missing_transmission_is_refused() {
    let v = validators(4);
    let mut storage = Storage::new(&committee(&v), 10);
    let c = certificate(0, &v[0], 1, vec![TRANSACTION, SOLUTION], vec![], &[&v[1], &v[2]]);
    let error = Err(StorageError::MissingTransmission);
    assert_eq!(storage.insert_certificate(c.clone(), provided(&[TRANSACTION]), &context(&v)), error);
    assert!(!storage.contains_transmission(TRANSACTION));
    assert_eq!(storage.insert_certificate(c, provided(&[TRANSACTION, SOLUTION]), &context(&v)), Ok(()));
    assert!(storage.contains_transmission(TRANSACTION));
}

#[test]
fn transmission_of_past_round_is_refused() {
    let v = validators(4);
    let mut storage = storage_with_round_one(&v, 3);
    let old = certificate(3, &v[3], 1, vec![TRANSACTION], vec![], &[&v[1], &v[2]]);
    assert_eq!(storage.insert_certificate(old, provided(&[TRANSACTION]), &context(&v)), Ok(()));
    let c = certificate(10, &v[0], 2, vec![SOLUTION, TRANSACTION], ids(3), &[&v[1], &v[2]]);
    let error = Err(StorageError::TransmissionFromPastRound);
    let given = provided(&[TRANSACTION, SOLUTION]);
    assert_eq!(storage.insert_certificate(c, given.clone(), &context(&v)), error);
    // Within one round a transmission may come twice.
    let c = certificate(11, &v[1], 2, vec![SOLUTION], ids(3), &[&v[0], &v[2]]);
    assert_eq!(storage.insert_certificate(c, given.clone(), &context(&v)), Ok(()));
    let c = certificate(12, &v[2], 2, vec![SOLUTION], ids(3), &[&v[0], &v[1]]);
    assert_eq!(storage.insert_certificate(c, TransmissionMap::new(), &context(&v)), Ok(()));
}

#[test]
fn missing_previous_committee_is_refused() {
    let v = validators(4);
    let storage = storage_with_round_one(&v, 3);
    let c = certificate(10, &v[0], 2, vec![], ids(3), &[&v[1], &v[2]]);
    let context = BatchContext { previous_committee: None, ..context(&v) };
    assert_eq!(header_error(&storage, &c, &context), Some(StorageError::MissingPreviousCommittee));
}

#[test]
fn missing_previous_round_is_refused() {
    let v = validators(4);
    let storage = storage_with_round_one(&v, 3);
    let c = certificate(10, &v[0], 3, vec![], ids(3), &[&v[1], &v[2]]);
    assert_eq!(header_error(&storage, &c, &context(&v)), Some(StorageError::MissingPreviousCertificates));
}

#[test]
fn too_many_previous_certificates_are_refused() {
    let v = validators(4);
    let storage = storage_with_round_one(&v, 4);
    let c = certificate(10, &v[0], 2, vec![], ids(5), &[&v[1], &v[2]]);
    assert_eq!(header_error(&storage, &c, &context(&v)), Some(StorageError::TooManyPreviousCertificates));
    let c = certificate(10, &v[0], 2, vec![], ids(4), &[&v[1], &v[2]]);
    assert_eq!(header_error(&storage, &c, &context(&v)), None);
}

#[test]
fn missing_previous_certificate_is_refused() {
    let v = validators(4);
    let storage = storage_with_round_one(&v, 3);
    let c = certificate(10, &v[0], 2, vec![], vec![(0, 1), (77, 1), (1, 1)], &[&v[1], &v[2]]);
    let error = StorageError::MissingPreviousCertificate((77, 1));
    assert_eq!(header_error(&storage, &c, &context(&v)), Some(error));
}

#[test]
fn previous_certificate_of_other_round_is_refused() {
    let v = validators(4);
    let mut storage = storage_with_round_one(&v, 3);
    let c = certificate(10, &v[0], 2, vec![], ids(3), &[&v[1], &v[2]]);
    assert_eq!(storage.insert_certificate(c, TransmissionMap::new(), &context(&v)), Ok(()));
    let c = certificate(20, &v[0], 3, vec![], vec![(10, 1), (0, 1)], &[&v[1], &v[2]]);
    let error = StorageError::PreviousCertificateFromOtherRound;
    assert_eq!(header_error(&storage, &c, &context(&v)), Some(error));
}

#[test]
fn duplicate_previous_author_is_refused() {
    let v = validators(4);
    let mut storage = storage_with_round_one(&v, 3);
    // A second certificate of an author in a round only comes in unchecked.
    let second = certificate(3, &v[0], 1, vec![], vec![], &[]);
    storage.insert_certificate_atomic(second, TransmissionMap::new());
    let c = certificate(10, &v[0], 2, vec![], ids(4), &[&v[1], &v[2]]);
    assert_eq!(header_error(&storage, &c, &context(&v)), Some(StorageError::DuplicatePreviousAuthor));
}

#[test]
fn previous_quorum_is_asked_for() {
    let v = validators(4);
    let storage = storage_with_round_one(&v, 4);
    let c = certificate(10, &v[0], 2, vec![], ids(2), &[&v[1], &v[2]]);
    assert_eq!(header_error(&storage, &c, &context(&v)), Some(StorageError::PreviousQuorumNotReached));
    let c = certificate(10, &v[0], 2, vec![], ids(3), &[&v[1], &v[2]]);
    assert_eq!(header_error(&storage, &c, &context(&v)), None);
}

#[test]
fn ancestry_is_not_asked_for_up_to_gc() {
    let v = validators(4);
    let mut storage = Storage::new(&committee(&v), 2);
    storage.sync_round_with_block(7);
    assert_eq!(storage.gc_round(), 5);
    // The previous round is the GC round.
    let c = certificate(10, &v[0], 6, vec![], ids(3), &[&v[1], &v[2]]);
    let context = BatchContext { previous_committee: None, ..context(&v) };
    assert_eq!(header_error(&storage, &c, &context), None);
    // The previous round is above it.
    let c = certificate(10, &v[0], 7, vec![], ids(3), &[&v[1], &v[2]]);
    assert_eq!(header_error(&storage, &c, &context), Some(StorageError::MissingPreviousCommittee));
}

#[test]
fn outside_signer_is_refused() {
    let v = validators(5);
    let storage = Storage::new(&committee(&v[..4]), 10);
    let c = certificate(0, &v[0], 1, vec![], vec![], &[&v[1], &v[4], &v[2]]);
    let error = StorageError::SignerNotInCommittee(v[4].address);
    let found = storage.check_certificate(&c, TransmissionMap::new(), &context(&v[..4])).err();
    assert_eq!(found, Some(error));
}

#[test]
fn quorum_counts_each_signer_once_and_the_author() {
    let v = validators(4);
    let storage = Storage::new(&committee(&v), 10);
    let check = |signers: &[&Validator]| {
        let c = certificate(0, &v[0], 1, vec![], vec![], signers);
        storage.check_certificate(&c, TransmissionMap::new(), &context(&v)).err()
    };
    assert_eq!(check(&[]), Some(StorageError::QuorumNotReached));
    assert_eq!(check(&[&v[1]]), Some(StorageError::QuorumNotReached));
    assert_eq!(check(&[&v[1], &v[1], &v[1]]), Some(StorageError::QuorumNotReached));
    assert_eq!(check(&[&v[0], &v[1]]), Some(StorageError::QuorumNotReached));
    assert_eq!(check(&[&v[1], &v[2]]), None);
    assert_eq!(check(&[&v[0], &v[1], &v[2], &v[3]]), None);
}

#[test]
fn signers_can_be_given() {
    let v = validators(4);
    let storage = Storage::new(&committee(&v), 10);
    let c = certificate(0, &v[0], 1, vec![], vec![], &[&v[1]]);
    let check = |signers: Vec<Address>| {
        storage.check_certificate_signed_by(&c, &signers, TransmissionMap::new(), &context(&v)).err()
    };
    assert_eq!(check(vec![v[1].address]), Some(StorageError::QuorumNotReached));
    assert_eq!(check(vec![v[1].address, v[3].address]), None);
    assert_eq!(check(vec![v[1].address, (1, 1)]), Some(StorageError::SignerNotInCommittee((1, 1))));
}

#[test]
fn certificate_at_gc_round_is_refused() {
    let v = validators(4);
    let mut storage = Storage::new(&committee(&v), 2);
    storage.sync_round_with_block(7);
    assert_eq!(storage.gc_round(), 5);
    let error = Err(StorageError::CertificateAtOrBelowGcRound);
    for round in [0, 4, 5] {
        let c = certificate(0, &v[0], round, vec![], vec![], &[&v[1], &v[2]]);
        assert_eq!(storage.insert_certificate(c, TransmissionMap::new(), &context(&v)), error);
    }
    let c = certificate(0, &v[0], 6, vec![], vec![], &[&v[1], &v[2]]);
    assert_eq!(storage.insert_certificate(c, TransmissionMap::new(), &context(&v)), Ok(()));
}

#[test]
fn insert_takes_given_signers() {
    let v = validators(4);
    let mut storage = Storage::new(&committee(&v), 10);
    let c = certificate(0, &v[0], 1, vec![TRANSACTION], vec![], &[]);
    let mut insert = |signers: Vec<Address>| {
        storage.insert_certificate_signed_by(c.clone(), &signers, provided(&[TRANSACTION]), &context(&v))
    };
    assert_eq!(insert(vec![v[1].address]), Err(StorageError::QuorumNotReached));
    assert_eq!(insert(vec![v[1].address, v[2].address]), Ok(()));
    assert_eq!(insert(vec![v[1].address, v[2].address]), Err(StorageError::CertificateExists));
    assert!(storage.contains_certificate((0, 1)));
}

#[test]
fn committees_are_requested_for_the_batch_and_the_previous_round() {
    let v = validators(4);
    let mut storage = Storage::new(&committee(&v), 2);
    let rounds = |storage: &Storage, round| {
        let c = certificate(0, &v[0], round, vec![], vec![], &[]);
        storage.committees_to_request(c.batch_header())
    };
    assert_eq!(rounds(&storage, 0), (0, None));
    assert_eq!(rounds(&storage, 1), (1, None));
    assert_eq!(rounds(&storage, 2), (2, Some(1)));
    storage.sync_round_with_block(7);
    assert_eq!(rounds(&storage, 6), (6, None));
    assert_eq!(rounds(&storage, 7), (7, Some(6)));
}

#[test]
fn transmission_of_collected_round_is_accepted() {
    let v = validators(4);
    let mut storage = Storage::new(&committee(&v), 2);
    // Certificates at or below the GC round only come in unchecked.
    storage.insert_certificate_atomic(
        certificate(0, &v[0], 0, vec![TRANSACTION], vec![], &[]),
        provided(&[TRANSACTION]),
    );
    let c = certificate(1, &v[1], 1, vec![TRANSACTION], vec![], &[&v[0], &v[2]]);
    assert_eq!(storage.insert_certificate(c, TransmissionMap::new(), &context(&v)), Ok(()));
    // The same holds for a round that the GC round has reached.
    storage.sync_round_with_block(7);
    assert_eq!(storage.gc_round(), 5);
    for (n, round) in [(2, 4), (3, 5)] {
        let old = certificate(n, &v[0], round, vec![SOLUTION], vec![], &[]);
        storage.insert_certificate_atomic(old, provided(&[SOLUTION]));
    }
    let c = certificate(4, &v[1], 6, vec![SOLUTION], vec![], &[&v[0], &v[2]]);
    assert_eq!(storage.insert_certificate(c, TransmissionMap::new(), &context(&v)), Ok(()));
    // One round further, it is from a past round.
    let c = certificate(5, &v[1], 7, vec![SOLUTION], vec![(4, 1)], &[&v[0], &v[2]]);
    let error = Err(StorageError::TransmissionFromPastRound);
    assert_eq!(storage.insert_certificate(c, TransmissionMap::new(), &context(&v)), error);
}
