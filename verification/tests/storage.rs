use narwhal_storage::batch::{BatchCertificate, BatchHeader};
use narwhal_storage::committee::Committee;
use narwhal_storage::ids::{Field, PuzzleCommitment, RoundEntry, TransmissionID};
use narwhal_storage::signature::Signature;
use narwhal_storage::storage::Storage;
use narwhal_storage::transmission::{Transmission, TransmissionMap};
use snarkvm::ledger::narwhal::batch_certificate::test_helpers::sample_batch_certificate;
use snarkvm::prelude::{Rng, TestRng, Testnet3, ToBytes, Uniform};

type CurrentNetwork = Testnet3;
type NetworkCertificate = snarkvm::ledger::narwhal::BatchCertificate<CurrentNetwork>;
type NetworkCommitment = snarkvm::ledger::coinbase::PuzzleCommitment<CurrentNetwork>;
type NetworkCommittee = snarkvm::ledger::committee::Committee<CurrentNetwork>;
type NetworkTransmissionID = snarkvm::ledger::narwhal::TransmissionID<CurrentNetwork>;

fn part(bytes: &[u8]) -> u128 {
    let mut array = [0u8; 16];
    array.copy_from_slice(bytes);
    u128::from_le_bytes(array)
}

fn field<T: ToBytes>(value: &T) -> Field {
    let bytes = value.to_bytes_le().unwrap();
    assert_eq!(bytes.len(), 32);
    (part(&bytes[..16]), part(&bytes[16..]))
}

fn commitment<T: ToBytes>(value: &T) -> PuzzleCommitment {
    let bytes = value.to_bytes_le().unwrap();
    assert_eq!(bytes.len(), 48);
    (part(&bytes[..16]), part(&bytes[16..32]), part(&bytes[32..]))
}

fn transmission_id(id: &NetworkTransmissionID) -> TransmissionID {
    match id {
        NetworkTransmissionID::Ratification => TransmissionID::Ratification,
        NetworkTransmissionID::Solution(id) => TransmissionID::Solution(commitment(id)),
        NetworkTransmissionID::Transaction(id) => TransmissionID::Transaction(field(id)),
    }
}

fn committee(committee: &NetworkCommittee) -> Committee {
    let members = committee.members().iter().map(|(address, (stake, _))| (field(address), *stake)).collect();
    Committee::new(committee.starting_round(), members).unwrap()
}

fn signature<T: ToBytes>(value: &T) -> Signature {
    Signature::from_bytes_le(value.to_bytes_le().unwrap()).unwrap()
}

fn certificate(certificate: &NetworkCertificate) -> BatchCertificate {
    let header = certificate.batch_header();
    let batch_header = BatchHeader::new(
        field(&header.batch_id()),
        field(&header.author()),
        header.round(),
        header.timestamp(),
        header.transmission_ids().iter().map(transmission_id).collect(),
        header.previous_certificate_ids().iter().map(field).collect(),
        signature(header.signature()),
    );
    let signatures = certificate.signatures().map(signature).zip(certificate.timestamps()).collect();
    BatchCertificate::new(field(&certificate.certificate_id()), batch_header, signatures)
}

/// The expected `(transmission, certificate IDs)` entries, by transmission ID.
type Transmissions = Vec<(TransmissionID, (Transmission, Vec<Field>))>;

/// Asserts that the storage matches the expected layout.
fn assert_storage(
    storage: &Storage,
    rounds: &[(u64, Vec<RoundEntry>)],
    certificates: &[(Field, BatchCertificate)],
    batch_ids: &[(Field, u64)],
    transmissions: &Transmissions,
) {
    // Ensure the rounds are well-formed.
    assert_eq!(storage.rounds_iter(), *rounds);
    // Ensure the certificates are well-formed.
    assert_eq!(storage.certificates_iter(), *certificates);
    // Ensure the batch IDs are well-formed.
    assert_eq!(storage.batch_ids_iter(), *batch_ids);
    // Ensure the transmissions are well-formed, in whatever order.
    let mut found = storage.transmissions_iter();
    found.sort_by_key(|(id, _)| id.key());
    let mut expected = transmissions.clone();
    expected.sort_by_key(|(id, _)| id.key());
    assert_eq!(found, expected);
}

/// Samples a random transmission.
fn sample_transmission(rng: &mut TestRng) -> Transmission {
    // Sample random fake solution bytes.
    let s = |rng: &mut TestRng| (0..512).map(|_| rng.gen::<u8>()).collect::<Vec<_>>();
    // Sample random fake transaction bytes.
    let t = |rng: &mut TestRng| (0..2048).map(|_| rng.gen::<u8>()).collect::<Vec<_>>();
    // Sample a random transmission.
    match rng.gen::<bool>() {
        true => Transmission::Solution(s(rng)),
        false => Transmission::Transaction(t(rng)),
    }
}

/// Samples the random transmissions, returning the missing transmissions and the transmissions.
fn sample_transmissions(certificate: &BatchCertificate, rng: &mut TestRng) -> (TransmissionMap, Transmissions) {
    // Retrieve the certificate ID.
    let certificate_id = certificate.certificate_id();

    let mut missing_transmissions = TransmissionMap::new();
    let mut transmissions = Vec::new();
    for transmission_id in certificate.transmission_ids() {
        // Initialize the transmission.
        let transmission = sample_transmission(rng);
        // Update the missing transmissions.
        missing_transmissions.insert(*transmission_id, transmission.clone());
        // Update the transmissions map.
        transmissions.push((*transmission_id, (transmission, vec![certificate_id])));
    }
    (missing_transmissions, transmissions)
}

#[test]
fn test_certificate_insert_remove() {
    let rng = &mut TestRng::default();

    // Sample a committee.
    let committee = committee(&snarkvm::ledger::committee::test_helpers::sample_committee(rng));
    // Initialize the storage.
    let mut storage = Storage::new(&committee, 1);

    // Ensure the storage is empty.
    assert_storage(&storage, &[], &[], &[], &Default::default());

    // Create a new certificate.
    let certificate = certificate(&sample_batch_certificate(rng));
    // Retrieve the certificate ID.
    let certificate_id = certificate.certificate_id();
    // Retrieve the round.
    let round = certificate.round();
    // Retrieve the batch ID.
    let batch_id = certificate.batch_id();
    // Retrieve the author of the batch.
    let author = certificate.author();

    // Construct the sample 'transmissions'.
    let (missing_transmissions, transmissions) = sample_transmissions(&certificate, rng);
    assert_eq!(transmissions.len(), 10);

    // Insert the certificate.
    storage.insert_certificate_atomic(certificate.clone(), missing_transmissions);
    // Ensure the certificate exists in storage.
    assert!(storage.contains_certificate(certificate_id));
    // Ensure the certificate is stored in the correct round.
    assert_eq!(storage.get_certificates_for_round(round), vec![certificate.clone()]);

    // Check that the underlying storage representation is correct.
    {
        // Construct the expected layout for 'rounds'.
        let rounds = [(round, vec![(certificate_id, batch_id, author)])];
        // Construct the expected layout for 'certificates'.
        let certificates = [(certificate_id, certificate.clone())];
        // Construct the expected layout for 'batch_ids'.
        let batch_ids = [(batch_id, round)];
        // Assert the storage is well-formed.
        assert_storage(&storage, &rounds, &certificates, &batch_ids, &transmissions);
    }

    // Retrieve the certificate.
    let candidate_certificate = storage.get_certificate(certificate_id).unwrap();
    // Ensure the retrieved certificate is the same as the inserted certificate.
    assert_eq!(certificate, candidate_certificate);

    // Remove the certificate.
    assert!(storage.remove_certificate(certificate_id));
    // Ensure the certificate does not exist in storage.
    assert!(!storage.contains_certificate(certificate_id));
    // Ensure the certificate is no longer stored in the round.
    assert!(storage.get_certificates_for_round(round).is_empty());
    // Ensure the storage is empty.
    assert_storage(&storage, &[], &[], &[], &Default::default());
}

#[test]
fn test_certificate_duplicate() {
    let rng = &mut TestRng::default();

    // Sample a committee.
    let committee = committee(&snarkvm::ledger::committee::test_helpers::sample_committee(rng));
    // Initialize the storage.
    let mut storage = Storage::new(&committee, 1);

    // Ensure the storage is empty.
    assert_storage(&storage, &[], &[], &[], &Default::default());

    // Create a new certificate.
    let certificate = certificate(&sample_batch_certificate(rng));
    // Retrieve the certificate ID.
    let certificate_id = certificate.certificate_id();
    // Retrieve the round.
    let round = certificate.round();
    // Retrieve the batch ID.
    let batch_id = certificate.batch_id();
    // Retrieve the author of the batch.
    let author = certificate.author();

    // Construct the expected layout for 'rounds'.
    let rounds = [(round, vec![(certificate_id, batch_id, author)])];
    // Construct the expected layout for 'certificates'.
    let certificates = [(certificate_id, certificate.clone())];
    // Construct the expected layout for 'batch_ids'.
    let batch_ids = [(batch_id, round)];
    // Construct the sample 'transmissions'.
    let (missing_transmissions, transmissions) = sample_transmissions(&certificate, rng);

    // Insert the certificate.
    storage.insert_certificate_atomic(certificate.clone(), missing_transmissions.clone());
    // Ensure the certificate exists in storage.
    assert!(storage.contains_certificate(certificate_id));
    // Check that the underlying storage representation is correct.
    assert_storage(&storage, &rounds, &certificates, &batch_ids, &transmissions);

    // Insert the certificate again - without any missing transmissions.
    storage.insert_certificate_atomic(certificate.clone(), Default::default());
    // Ensure the certificate exists in storage.
    assert!(storage.contains_certificate(certificate_id));
    // Check that the underlying storage representation remains unchanged.
    assert_storage(&storage, &rounds, &certificates, &batch_ids, &transmissions);

    // Insert the certificate again - with all of the original missing transmissions.
    storage.insert_certificate_atomic(certificate, missing_transmissions);
    // Ensure the certificate exists in storage.
    assert!(storage.contains_certificate(certificate_id));
    // Check that the underlying storage representation remains unchanged.
    assert_storage(&storage, &rounds, &certificates, &batch_ids, &transmissions);
}

#[test]
fn test_certificate_duplicate_in_genesis_round() {
    let rng = &mut TestRng::default();
    let keys: Vec<_> = (0..4).map(|_| snarkvm::prelude::PrivateKey::<CurrentNetwork>::new(rng).unwrap()).collect();
    let addresses: Vec<_> = keys.iter().map(|key| snarkvm::prelude::Address::try_from(key).unwrap()).collect();
    let members = addresses.iter().map(|address| (field(address), 1_000_000_000_000)).collect();
    let mut storage = Storage::new(&Committee::new(1, members).unwrap(), 1);
    assert_storage(&storage, &[], &[], &[], &Default::default());

    for count in [1usize, 2, 7, 15] {
        let signer = rng.gen_range(0..4);
        // Sample the transmission IDs.
        let ids: Vec<NetworkTransmissionID> = (0..count)
            .map(|_| match rng.gen::<bool>() {
                true => NetworkTransmissionID::Solution(NetworkCommitment::from_g1_affine(rng.gen())),
                false => {
                    let id = snarkvm::prelude::Field::<CurrentNetwork>::rand(rng);
                    NetworkTransmissionID::Transaction(id.into())
                }
            })
            .collect();
        // Create a new certificate, which all validators sign.
        let batch_header = snarkvm::ledger::narwhal::BatchHeader::new(
            &keys[signer],
            0,
            1_700_000_000,
            ids.iter().cloned().collect(),
            Default::default(),
            rng,
        )
        .unwrap();
        let signatures = keys
            .iter()
            .map(|key| {
                let timestamp = snarkvm::prelude::Field::from_u64(1_700_000_001);
                (key.sign(&[batch_header.batch_id(), timestamp], rng).unwrap(), 1_700_000_001)
            })
            .collect();
        let certificate = certificate(&NetworkCertificate::new(batch_header, signatures).unwrap());
        assert_eq!(certificate.author(), field(&addresses[signer]));
        assert_eq!(certificate.signers(), addresses.iter().map(field).collect::<Vec<_>>());
        let (missing_transmissions, transmissions) = sample_transmissions(&certificate, rng);

        let certificate_id = certificate.certificate_id();
        let rounds = [(0, vec![(certificate_id, certificate.batch_id(), certificate.author())])];
        let certificates = [(certificate_id, certificate.clone())];
        let batch_ids = [(certificate.batch_id(), 0)];

        storage.insert_certificate_atomic(certificate.clone(), missing_transmissions.clone());
        assert!(storage.contains_certificate(certificate_id));
        assert_storage(&storage, &rounds, &certificates, &batch_ids, &transmissions);
        // The genesis round does not have batch certificates.
        assert!(storage.get_certificates_for_round(0).is_empty());

        storage.insert_certificate_atomic(certificate.clone(), Default::default());
        assert!(storage.contains_certificate(certificate_id));
        assert_storage(&storage, &rounds, &certificates, &batch_ids, &transmissions);

        storage.insert_certificate_atomic(certificate, missing_transmissions);
        assert!(storage.contains_certificate(certificate_id));
        assert_storage(&storage, &rounds, &certificates, &batch_ids, &transmissions);

        assert!(storage.remove_certificate(certificate_id));
        assert!(!storage.remove_certificate(certificate_id));
        assert_storage(&storage, &[], &[], &[], &Default::default());
    }
}
