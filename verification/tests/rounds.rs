use narwhal_storage::batch::{BatchCertificate, BatchHeader};
use narwhal_storage::committee::{AddressSet, Committee};
use narwhal_storage::context::{BatchContext, Block};
use narwhal_storage::error::StorageError;
use narwhal_storage::ids::{Address, Field, RoundEntry, TransmissionID};
use narwhal_storage::signature::Signature;
use narwhal_storage::storage::Storage;
use narwhal_storage::transmission::{Transmission, TransmissionMap};
use snarkvm::prelude::{TestRng, Testnet3, ToBytes};

/// A signature, with the address of its signer.
fn sign() -> (Address, Signature) {
    let rng = &mut TestRng::default();
    let key = snarkvm::prelude::PrivateKey::<Testnet3>::new(rng).unwrap();
    let bytes = snarkvm::prelude::Address::try_from(&key).unwrap().to_bytes_le().unwrap();
    let mut low = [0u8; 16];
    let mut high = [0u8; 16];
    low.copy_from_slice(&bytes[..16]);
    high.copy_from_slice(&bytes[16..]);
    let signature = key.sign(&[snarkvm::prelude::Field::from_u64(1)], rng).unwrap().to_bytes_le().unwrap();
    let address = (u128::from_le_bytes(low), u128::from_le_bytes(high));
    (address, Signature::from_bytes_le(signature).unwrap())
}

/// A committee of one member.
fn committee(starting_round: u64, member: Address) -> Committee {
    Committee::new(starting_round, vec![(member, 10)]).unwrap()
}

/// A certificate with the ID `(n, 1)`, for the batch `(n, 2)`.
fn certificate(n: u128, author: &(Address, Signature), round: u64, ids: Vec<TransmissionID>) -> BatchCertificate {
    let header = BatchHeader::new((n, 2), author.0, round, 150, ids, vec![], author.1.clone());
    BatchCertificate::new((n, 1), header, vec![(author.1.clone(), 160)])
}

fn entry(n: u128, author: &(Address, Signature)) -> RoundEntry {
    ((n, 1), (n, 2), author.0)
}

fn context(author: &(Address, Signature)) -> BatchContext {
    BatchContext {
        committee: Some(committee(1, author.0)),
        previous_committee: Some(committee(1, author.0)),
        earliest: 0,
        latest: 1000,
    }
}

fn transaction(n: u128) -> TransmissionID {
    TransmissionID::Transaction((n, n))
}

fn provided(ids: &[TransmissionID], byte: u8) -> TransmissionMap {
    let mut map = TransmissionMap::new();
    for id in ids {
        map.insert(*id, Transmission::Transaction(vec![byte]));
    }
    map
}

/// What the storage holds, in order.
type Layout = (
    Vec<(u64, Vec<RoundEntry>)>,
    Vec<(Field, BatchCertificate)>,
    Vec<(Field, u64)>,
    Vec<(TransmissionID, (Transmission, Vec<Field>))>,
);

fn layout(storage: &Storage) -> Layout {
    (storage.rounds_iter(), storage.certificates_iter(), storage.batch_ids_iter(), storage.transmissions_iter())
}

#[test]
fn new_storage_is_in_the_starting_round() {
    let (address, _) = sign();
    let storage = Storage::new(&committee(0, address), 50);
    assert_eq!((storage.current_height(), storage.current_round(), storage.gc_round()), (0, 1, 0));
    assert_eq!(storage.max_gc_rounds(), 50);
    let storage = Storage::new(&committee(10, address), 4);
    assert_eq!((storage.current_height(), storage.current_round(), storage.gc_round()), (0, 10, 6));
    assert_eq!(storage.max_gc_rounds(), 4);
    let storage = Storage::new(&committee(1000, address), 0);
    assert_eq!((storage.current_round(), storage.gc_round()), (1000, 1000));
    assert_eq!(layout(&storage), (vec![], vec![], vec![], vec![]));
}

#[test]
fn increment_moves_to_the_next_round() {
    let author = sign();
    let current = committee(1, author.0);
    let mut storage = Storage::new(&current, 2);
    for round in 2..=6u64 {
        assert_eq!(storage.increment_to_next_round(Some(&current)), Ok(()));
        assert_eq!(storage.current_round(), round);
        assert_eq!(storage.gc_round(), round.saturating_sub(2));
    }
}

#[test]
fn increment_is_refused() {
    let author = sign();
    let current = committee(1, author.0);
    let mut storage = Storage::new(&current, 2);
    assert_eq!(storage.increment_to_next_round(None), Err(StorageError::MissingCurrentCommittee));
    let late = committee(3, author.0);
    assert_eq!(storage.increment_to_next_round(Some(&late)), Err(StorageError::NextRoundBehindCommittee));
    let next = committee(2, author.0);
    storage.insert_certificate_atomic(certificate(0, &author, 2, vec![]), TransmissionMap::new());
    assert_eq!(storage.increment_to_next_round(Some(&next)), Err(StorageError::NextRoundHasCertificates));
    assert_eq!(storage.increment_to_next_round(None), Err(StorageError::NextRoundHasCertificates));
    assert_eq!(storage.current_round(), 1);
    assert!(storage.remove_certificate((0, 1)));
    assert_eq!(storage.increment_to_next_round(Some(&next)), Ok(()));
    assert_eq!(storage.current_round(), 2);
}

#[test]
fn garbage_collection_includes_the_gc_round() {
    let author = sign();
    let current = committee(1, author.0);
    let mut storage = Storage::new(&current, 3);
    for round in 1..=6u64 {
        let id = transaction(round as u128);
        let shared = transaction(100 + (round as u128) / 2);
        let c = certificate(round as u128, &author, round, vec![id, shared]);
        storage.insert_certificate_atomic(c, provided(&[id, shared], round as u8));
    }
    storage.sync_round_with_block(6);
    assert_eq!((storage.current_round(), storage.gc_round()), (6, 3));
    for round in 1..=6u64 {
        let kept = round > 3;
        let n = round as u128;
        assert_eq!(storage.contains_certificates_for_round(round), kept);
        assert_eq!(storage.contains_certificate((n, 1)), kept);
        assert_eq!(storage.contains_batch((n, 2)), kept);
        assert_eq!(storage.contains_transmission(transaction(n)), kept);
        assert_eq!(storage.contains_certificate_in_round_from(round, author.0), kept);
    }
    // Rounds two and three share a transmission, and so do rounds four and five.
    assert!(!storage.contains_transmission(transaction(101)));
    assert!(storage.contains_transmission(transaction(102)));
    assert_eq!(storage.get_transmission(transaction(102)), Some(Transmission::Transaction(vec![4])));
    // The next round takes one more.
    assert_eq!(storage.increment_to_next_round(Some(&current)), Ok(()));
    assert_eq!(storage.gc_round(), 4);
    assert!(!storage.contains_certificate((4, 1)));
    assert!(storage.contains_transmission(transaction(102)));
    assert!(storage.contains_certificate((5, 1)));
    // A collected certificate does not come back.
    let c = certificate(4, &author, 4, vec![]);
    let error = Err(StorageError::CertificateAtOrBelowGcRound);
    assert_eq!(storage.insert_certificate(c, TransmissionMap::new(), &context(&author)), error);
}

#[test]
fn keeping_no_rounds_clears_everything() {
    let author = sign();
    let mut storage = Storage::new(&committee(1, author.0), 0);
    assert_eq!(storage.gc_round(), 1);
    let id = transaction(1);
    let c = certificate(1, &author, 2, vec![id]);
    assert_eq!(storage.insert_certificate(c, provided(&[id], 1), &context(&author)), Ok(()));
    storage.sync_round_with_block(2);
    assert_eq!((storage.current_round(), storage.gc_round()), (2, 2));
    assert_eq!(layout(&storage), (vec![], vec![], vec![], vec![]));
}

#[test]
fn genesis_certificates_are_not_collected() {
    let author = sign();
    let mut storage = Storage::new(&committee(1, author.0), 1);
    storage.insert_certificate_atomic(certificate(1, &author, 0, vec![]), TransmissionMap::new());
    storage.sync_round_with_block(9);
    assert_eq!(storage.gc_round(), 8);
    assert!(storage.contains_certificate((1, 1)));
    assert!(storage.get_certificates_for_round(0).is_empty());
}

#[test]
fn remove_undoes_insert() {
    let author = sign();
    let mut storage = Storage::new(&committee(1, author.0), 10);
    let (a, b, c) = (transaction(1), transaction(2), transaction(3));
    storage.insert_certificate_atomic(certificate(1, &author, 1, vec![a, b]), provided(&[a, b], 1));
    storage.insert_certificate_atomic(certificate(2, &author, 2, vec![b]), TransmissionMap::new());
    let before = layout(&storage);
    assert_eq!(before.3[1].1 .1, vec![(1, 1), (2, 1)]);
    for round in [1, 2, 3] {
        let new = certificate(3, &author, round, vec![c, b, transaction(4), a]);
        storage.insert_certificate_atomic(new, provided(&[a, b, c, transaction(4)], 3));
        assert_eq!(storage.transmissions_iter().len(), 4);
        // A transmission that is stored stays as it is.
        assert_eq!(storage.get_transmission(b), Some(Transmission::Transaction(vec![1])));
        assert_eq!(storage.get_transmission(c), Some(Transmission::Transaction(vec![3])));
        assert!(storage.remove_certificate((3, 1)));
        assert_eq!(layout(&storage), before);
    }
    assert!(!storage.remove_certificate((3, 1)));
    assert_eq!(layout(&storage), before);
}

#[test]
fn insert_again_changes_nothing() {
    let author = sign();
    let mut storage = Storage::new(&committee(1, author.0), 10);
    let (a, b) = (transaction(1), transaction(2));
    storage.insert_certificate_atomic(certificate(1, &author, 1, vec![a, b]), provided(&[a, b], 1));
    storage.insert_certificate_atomic(certificate(2, &author, 2, vec![b]), TransmissionMap::new());
    let before = layout(&storage);
    storage.insert_certificate_atomic(certificate(1, &author, 1, vec![a, b]), provided(&[a, b], 9));
    assert_eq!(layout(&storage), before);
}

#[test]
fn the_last_entry_takes_the_place_of_a_removed_one() {
    let author = sign();
    let mut storage = Storage::new(&committee(1, author.0), 10);
    for n in 1..=3u128 {
        let id = transaction(n);
        let c = certificate(n, &author, n as u64, vec![id, transaction(9)]);
        storage.insert_certificate_atomic(c, provided(&[id, transaction(9)], n as u8));
    }
    for n in 4..=6u128 {
        storage.insert_certificate_atomic(certificate(n, &author, 7, vec![]), TransmissionMap::new());
    }
    assert!(storage.remove_certificate((4, 1)));
    assert!(storage.remove_certificate((1, 1)));
    let rounds = storage.rounds_iter();
    assert_eq!(rounds[0], (7, vec![entry(6, &author), entry(5, &author)]));
    assert_eq!(rounds[1], (2, vec![entry(2, &author)]));
    assert_eq!(rounds[2], (3, vec![entry(3, &author)]));
    assert_eq!(rounds.len(), 3);
    let ids: Vec<Field> = storage.certificates_iter().iter().map(|(id, _)| *id).collect();
    assert_eq!(ids, vec![(5, 1), (2, 1), (3, 1), (6, 1)]);
    assert_eq!(storage.batch_ids_iter(), vec![((5, 2), 7), ((2, 2), 2), ((3, 2), 3), ((6, 2), 7)]);
    let transmissions = storage.transmissions_iter();
    let order: Vec<TransmissionID> = transmissions.iter().map(|(id, _)| *id).collect();
    assert_eq!(order, vec![transaction(3), transaction(9), transaction(2)]);
    assert_eq!(transmissions[1].1, (Transmission::Transaction(vec![1]), vec![(3, 1), (2, 1)]));
}

#[test]
fn height_only_rises() {
    let author = sign();
    let mut storage = Storage::new(&committee(1, author.0), 10);
    storage.sync_height_with_block(&Block::new(5, TransmissionMap::new()));
    assert_eq!(storage.current_height(), 5);
    storage.sync_height_with_block(&Block::new(4, TransmissionMap::new()));
    assert_eq!(storage.current_height(), 5);
    storage.sync_height_with_block(&Block::new(6, TransmissionMap::new()));
    assert_eq!(storage.current_height(), 6);
}

#[test]
fn synced_round_only_rises() {
    let author = sign();
    let mut storage = Storage::new(&committee(5, author.0), 3);
    assert_eq!((storage.current_round(), storage.gc_round()), (5, 2));
    storage.sync_round_with_block(0);
    storage.sync_round_with_block(4);
    assert_eq!((storage.current_round(), storage.gc_round()), (5, 2));
    storage.sync_round_with_block(9);
    assert_eq!((storage.current_round(), storage.gc_round()), (9, 6));
}

#[test]
fn synced_certificate_takes_transmissions_from_block_and_ledger() {
    let author = sign();
    let mut storage = Storage::new(&committee(1, author.0), 10);
    let (stored, in_block, in_ledger) = (transaction(1), transaction(2), TransmissionID::Solution((1, 2, 3)));
    storage.insert_certificate_atomic(certificate(1, &author, 2, vec![stored]), provided(&[stored], 1));
    let c = certificate(2, &author, 1, vec![stored, in_block, in_ledger]);
    let block = Block::new(1, provided(&[stored, in_block], 2));
    assert_eq!(storage.transmissions_to_request(&block, &c), vec![in_ledger]);
    // Without the ledger the certificate is not inserted.
    let before = layout(&storage);
    let missing = Err(StorageError::MissingTransmission);
    let none = TransmissionMap::new();
    assert_eq!(storage.sync_certificate_with_block(&block, &c, &none, &context(&author)), missing);
    assert_eq!(layout(&storage), before);
    // With it, what is stored stays, and the block comes before the ledger.
    let ledger = provided(&[in_block, in_ledger], 3);
    assert_eq!(storage.sync_certificate_with_block(&block, &c, &ledger, &context(&author)), Ok(()));
    assert!(storage.contains_certificate((2, 1)));
    assert_eq!(storage.get_transmission(stored), Some(Transmission::Transaction(vec![1])));
    assert_eq!(storage.get_transmission(in_block), Some(Transmission::Transaction(vec![2])));
    assert_eq!(storage.get_transmission(in_ledger), Some(Transmission::Transaction(vec![3])));
    // A certificate that is stored asks for nothing, and changes nothing.
    let before = layout(&storage);
    assert_eq!(storage.transmissions_to_request(&Block::new(1, TransmissionMap::new()), &c), vec![]);
    assert_eq!(storage.sync_certificate_with_block(&block, &c, &ledger, &context(&author)), Ok(()));
    assert_eq!(layout(&storage), before);
}

#[test]
fn synced_certificate_is_passed_over_up_to_gc() {
    let author = sign();
    let mut storage = Storage::new(&committee(9, author.0), 3);
    assert_eq!(storage.gc_round(), 6);
    let block = Block::new(1, TransmissionMap::new());
    let c = certificate(1, &author, 6, vec![transaction(1)]);
    assert_eq!(storage.transmissions_to_request(&block, &c), vec![]);
    let ledger = provided(&[transaction(1)], 1);
    assert_eq!(storage.sync_certificate_with_block(&block, &c, &ledger, &context(&author)), Ok(()));
    assert!(!storage.contains_certificate((1, 1)));
    let c = certificate(1, &author, 7, vec![transaction(1)]);
    assert_eq!(storage.transmissions_to_request(&block, &c), vec![transaction(1)]);
    assert_eq!(storage.sync_certificate_with_block(&block, &c, &ledger, &context(&author)), Ok(()));
    assert!(storage.contains_certificate((1, 1)));
}

#[test]
fn ratification_is_not_fetched() {
    let author = sign();
    let mut storage = Storage::new(&committee(1, author.0), 10);
    let c = certificate(1, &author, 1, vec![TransmissionID::Ratification]);
    let map = provided(&[TransmissionID::Ratification], 1);
    let block = Block::new(1, map.clone());
    assert_eq!(storage.transmissions_to_request(&block, &c), vec![]);
    let missing = Err(StorageError::MissingTransmission);
    assert_eq!(storage.sync_certificate_with_block(&block, &c, &map, &context(&author)), missing);
    assert!(!storage.contains_certificate((1, 1)));
}

#[test]
fn quorum_is_above_two_thirds() {
    let threshold = |stakes: &[u64]| {
        let members = stakes.iter().enumerate().map(|(i, stake)| ((i as u128, 0), *stake)).collect();
        Committee::new(1, members).unwrap().quorum_threshold()
    };
    assert_eq!(threshold(&[]), 1);
    assert_eq!(threshold(&[1]), 1);
    assert_eq!(threshold(&[1, 1, 1]), 3);
    assert_eq!(threshold(&[1, 1, 1, 1]), 3);
    assert_eq!(threshold(&[1, 1, 1, 1, 1, 1, 1]), 5);
    assert_eq!(threshold(&[10, 20, 30]), 41);
    // Twice the stake does not fit, and is cut.
    assert_eq!(threshold(&[u64::MAX]), u64::MAX / 3 + 1);
}

#[test]
fn committee_agrees_with_the_network_on_quorum() {
    let rng = &mut TestRng::default();
    for size in 4..8u16 {
        let network = snarkvm::ledger::committee::test_helpers::sample_committee_custom(size, rng);
        let addresses: Vec<_> = network.members().keys().cloned().collect();
        let members: Vec<(Address, u64)> = addresses
            .iter()
            .map(|address| {
                let bytes = address.to_bytes_le().unwrap();
                let mut low = [0u8; 16];
                let mut high = [0u8; 16];
                low.copy_from_slice(&bytes[..16]);
                high.copy_from_slice(&bytes[16..]);
                ((u128::from_le_bytes(low), u128::from_le_bytes(high)), network.get_stake(*address))
            })
            .collect();
        let committee = Committee::new(network.starting_round(), members.clone()).unwrap();
        assert_eq!(committee.starting_round(), network.starting_round());
        assert_eq!(committee.num_members(), network.num_members());
        assert_eq!(committee.quorum_threshold(), network.quorum_threshold());
        for count in 0..=members.len() {
            let mut set = AddressSet::new();
            for (address, stake) in &members[..count] {
                assert!(committee.is_committee_member(*address));
                assert_eq!(committee.get_stake(*address), *stake);
                set.insert(*address);
                set.insert(*address);
            }
            let expected = network.is_quorum_threshold_reached(&addresses[..count].iter().cloned().collect());
            assert_eq!(committee.is_quorum_threshold_reached(&set), expected);
        }
        assert!(!committee.is_committee_member((0, 0)));
        assert_eq!(committee.get_stake((0, 0)), 0);
    }
}

#[test]
fn committee_is_refused() {
    assert!(Committee::new(1, vec![((1, 0), 5), ((2, 0), 5), ((1, 0), 5)]).is_none());
    assert!(Committee::new(1, vec![((1, 0), u64::MAX), ((2, 0), 1)]).is_none());
    assert!(Committee::new(1, vec![((1, 0), u64::MAX), ((2, 0), 0)]).is_some());
}

#[test]
fn signature_gives_its_signer() {
    let (address, signature) = sign();
    assert_eq!(signature.to_address(), address);
    let bytes = signature.to_bytes_le().clone();
    assert_eq!(bytes.len(), 128);
    assert_eq!(Signature::from_bytes_le(bytes.clone()), Some(signature.clone()));
    assert!(Signature::from_bytes_le(bytes[1..].to_vec()).is_none());
    assert!(Signature::from_bytes_le(vec![]).is_none());
    assert!(Signature::from_bytes_le(vec![255; 128]).is_none());
}

#[test]
fn header_lists_each_id_once() {
    let author = sign();
    let (a, b) = (transaction(1), TransmissionID::Solution((1, 1, 0)));
    let previous = vec![(1, 0), (0, 1), (1, 0), (2, 2), (0, 1)];
    let header = BatchHeader::new((1, 1), author.0, 3, 4, vec![a, b, a, b], previous, author.1);
    assert_eq!(*header.transmission_ids(), vec![a, b]);
    assert_eq!(*header.previous_certificate_ids(), vec![(1, 0), (0, 1), (2, 2)]);
    assert_eq!((header.batch_id(), header.author(), header.round(), header.timestamp()), ((1, 1), author.0, 3, 4));
}

#[test]
fn transmission_id_comes_back_from_its_key() {
    let ids = [
        TransmissionID::Ratification,
        TransmissionID::Solution((0, 0, 0)),
        TransmissionID::Solution((1, 2, u128::MAX)),
        TransmissionID::Transaction((0, 0)),
        TransmissionID::Transaction((u128::MAX, 5)),
    ];
    for (i, id) in ids.iter().enumerate() {
        assert_eq!(TransmissionID::from_key(id.key()), *id);
        for other in &ids[i + 1..] {
            assert_ne!(id.key(), other.key());
        }
    }
}

#[test]
fn synced_certificate_takes_given_signers() {
    let author = sign();
    let mut storage = Storage::new(&committee(1, author.0), 10);
    let c = certificate(1, &author, 1, vec![transaction(1)]);
    let block = Block::new(1, provided(&[transaction(1)], 1));
    let none = TransmissionMap::new();
    let outsider = Err(StorageError::SignerNotInCommittee((9, 9)));
    assert_eq!(storage.sync_certificate_signed_by(&block, &c, &vec![(9, 9)], &none, &context(&author)), outsider);
    assert!(!storage.contains_certificate((1, 1)));
    assert_eq!(storage.sync_certificate_signed_by(&block, &c, &vec![author.0], &none, &context(&author)), Ok(()));
    assert!(storage.contains_certificate((1, 1)));
}

#[test]
fn only_requested_transmissions_matter() {
    let author = sign();
    let c = certificate(1, &author, 1, vec![transaction(1), transaction(2)]);
    let block = Block::new(1, provided(&[transaction(1)], 1));
    let sync = |ledger: TransmissionMap| {
        let mut storage = Storage::new(&committee(1, author.0), 10);
        assert_eq!(storage.transmissions_to_request(&block, &c), vec![transaction(2)]);
        assert_eq!(storage.sync_certificate_with_block(&block, &c, &ledger, &context(&author)), Ok(()));
        layout(&storage)
    };
    let first = sync(provided(&[transaction(2)], 2));
    let second = sync(provided(&[transaction(1), transaction(2), transaction(3)], 2));
    assert_eq!(first.1.len(), 1);
    assert_eq!(first, second);
}

#[test]
fn no_more_rounds_are_kept_than_asked_for() {
    let author = sign();
    let current = committee(0, author.0);
    let mut storage = Storage::new(&current, 3);
    assert_eq!(storage.current_round(), 1);
    for round in 1..=8u64 {
        let c = certificate(round as u128, &author, round, vec![]);
        storage.insert_certificate_atomic(c, TransmissionMap::new());
        let kept = storage.rounds_iter();
        assert_eq!(kept.len() as u64, round.min(3));
        assert!(kept.iter().all(|(r, _)| *r > storage.gc_round() && *r <= storage.current_round()));
        assert_eq!(storage.increment_to_next_round(Some(&current)), Ok(()));
    }
}

#[test]
fn passed_over_certificates_are_told() {
    let author = sign();
    let mut storage = Storage::new(&committee(9, author.0), 3);
    assert_eq!(storage.gc_round(), 6);
    assert!(storage.is_passed_over(&certificate(1, &author, 6, vec![])));
    assert!(!storage.is_passed_over(&certificate(1, &author, 7, vec![])));
    storage.insert_certificate_atomic(certificate(1, &author, 7, vec![]), TransmissionMap::new());
    assert!(storage.is_passed_over(&certificate(1, &author, 7, vec![])));
    assert!(!storage.is_passed_over(&certificate(2, &author, 7, vec![])));
}

#[test]
fn maps_stay_in_order_when_batches_collide() {
    let author = sign();
    let mut storage = Storage::new(&committee(1, author.0), 10);
    let (a, b) = (transaction(1), transaction(2));
    storage.insert_certificate_atomic(certificate(1, &author, 1, vec![a]), provided(&[a], 1));
    // Another certificate for the same batch, in another round.
    let header = BatchHeader::new((1, 2), author.0, 2, 150, vec![a, b], vec![], author.1.clone());
    let second = BatchCertificate::new((2, 1), header, vec![]);
    storage.insert_certificate_atomic(second.clone(), provided(&[b], 2));
    let once = layout(&storage);
    assert_eq!(once.2, vec![((1, 2), 2)]);
    assert_eq!(once.3[0].1 .1, vec![(1, 1), (2, 1)]);
    storage.insert_certificate_atomic(second, provided(&[a, b], 9));
    assert_eq!(layout(&storage), once);
    // A removed certificate is not found, nor is its batch.
    assert!(storage.remove_certificate((2, 1)));
    assert_eq!(storage.get_certificate((2, 1)), None);
    assert_eq!(storage.get_round_for_batch((1, 2)), None);
    assert!(!storage.contains_certificates_for_round(2));
    assert!(!storage.contains_transmission(b));
    assert!(storage.contains_certificate((1, 1)) && storage.contains_transmission(a));
}
