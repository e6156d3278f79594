use threshold_signer::artifacts::{
    decode_byte_lists, decode_parameters, encode_byte_lists, encode_parameters, decode_bytes, decode_packages, decode_set, decode_slot, encode_bytes, encode_packages,
    encode_set, encode_slot, parse_secret_key, secret_key_from_hex,
};
use threshold_signer::ceremony::{
    prepare_contribution, prepare_receipt, prepare_signing, verify_group_signature,
    CeremonyError, IndexedSet, NonceSlot, PackageSet,
};

fn secret(i: u8) -> [u8; 32] {
    [i; 32]
}

fn public_of(i: u8) -> Vec<u8> {
    schnorrkel::MiniSecretKey::from_bytes(&secret(i))
        .unwrap()
        .expand_to_keypair(schnorrkel::ExpansionMode::Ed25519)
        .public
        .to_bytes()
        .to_vec()
}

fn recipients() -> Vec<Vec<u8>> {
    vec![public_of(1), public_of(2), public_of(3)]
}

fn full_contribution_set() -> IndexedSet {
    let mut set = IndexedSet::new();
    for p in [2u16, 1, 3] {
        set.record(3, p, vec![p as u8, 0xAA]).unwrap();
    }
    set
}

#[test]
fn keygen_round1_accepts_every_participant() {
    for p in 1u16..=3 {
        let req = prepare_contribution(p, 2, secret(p as u8), recipients()).unwrap();
        assert_eq!(req.participant, p);
        assert_eq!(req.threshold, 2);
        assert_eq!(req.recipients, recipients());
    }
}

#[test]
fn keygen_round1_rejects_thresholds_outside_range() {
    assert_eq!(prepare_contribution(1, 0, secret(1), recipients()).unwrap_err(), CeremonyError::InvalidThreshold);
    assert_eq!(prepare_contribution(1, 4, secret(1), recipients()).unwrap_err(), CeremonyError::InvalidThreshold);
    assert!(prepare_contribution(1, 3, secret(1), recipients()).is_ok());
    assert!(prepare_contribution(1, 1, secret(1), recipients()).is_ok());
}

#[test]
fn keygen_round1_rejects_bad_recipient() {
    let mut rs = recipients();
    rs[1] = vec![1, 2, 3];
    assert_eq!(prepare_contribution(1, 2, secret(1), rs).unwrap_err(), CeremonyError::InvalidRecipient(2));
}

#[test]
fn keygen_round1_rejects_wrong_participant() {
    assert_eq!(prepare_contribution(2, 2, secret(1), recipients()).unwrap_err(), CeremonyError::UnknownParticipant(2));
    assert_eq!(prepare_contribution(0, 2, secret(1), recipients()).unwrap_err(), CeremonyError::UnknownParticipant(0));
    assert_eq!(prepare_contribution(4, 2, secret(1), recipients()).unwrap_err(), CeremonyError::UnknownParticipant(4));
}

#[test]
fn keygen_round2_gives_every_participant_the_same_input() {
    let set = full_contribution_set();
    let first = prepare_receipt(&set, 3).unwrap();
    assert_eq!(first, vec![vec![1, 0xAA], vec![2, 0xAA], vec![3, 0xAA]]);
    let mut other = IndexedSet::new();
    for p in [3u16, 2, 1] {
        other.record(3, p, vec![p as u8, 0xAA]).unwrap();
    }
    assert_eq!(prepare_receipt(&other, 3).unwrap(), first);
}

#[test]
fn keygen_round2_refuses_incomplete_set() {
    let mut set = IndexedSet::new();
    set.record(3, 1, vec![1]).unwrap();
    set.record(3, 3, vec![3]).unwrap();
    assert_eq!(prepare_receipt(&set, 3).unwrap_err(), CeremonyError::IncompleteContributionSet);
}

#[test]
fn sets_refuse_duplicates_and_strangers() {
    let mut set = IndexedSet::new();
    set.record(3, 1, vec![1]).unwrap();
    assert_eq!(set.record(3, 1, vec![9]).unwrap_err(), CeremonyError::DuplicateParticipant(1));
    assert_eq!(set.record(3, 4, vec![4]).unwrap_err(), CeremonyError::UnknownParticipant(4));
    assert_eq!(set.record(3, 0, vec![0]).unwrap_err(), CeremonyError::UnknownParticipant(0));
    assert_eq!(set.len(), 1);
    assert_eq!(set.payload_of(1), Some(&vec![1]));
}

fn commit(slot: &mut NonceSlot, set: &mut IndexedSet, p: u16, tag: u8) {
    slot.store(vec![tag, 0x01], vec![tag, 0x02]);
    set.record(3, p, vec![tag, 0x02]).unwrap();
}

#[test]
fn signing_two_of_three_end_to_end() {
    let message = vec![0x01u8, 0x02, 0x03];
    let mut commitments = IndexedSet::new();
    let mut slot1 = NonceSlot::Empty;
    let mut slot2 = NonceSlot::Empty;
    commit(&mut slot1, &mut commitments, 1, 10);
    commit(&mut slot2, &mut commitments, 2, 20);
    let r1 = prepare_signing(&mut slot1, 1, 2, &commitments).unwrap();
    let r2 = prepare_signing(&mut slot2, 2, 2, &commitments).unwrap();
    assert_eq!(r1.nonce, vec![10, 0x01]);
    assert_eq!(r2.commitments, vec![vec![10, 0x02], vec![20, 0x02]]);
    let mut packages = PackageSet::new();
    packages.record(3, 1, vec![0x51], &message).unwrap();
    packages.record(3, 2, vec![0x52], &message).unwrap();
    assert_eq!(packages.aggregation_input(2).unwrap(), vec![vec![0x51], vec![0x52]]);
}

#[test]
fn nonce_reuse_is_refused() {
    let mut commitments = IndexedSet::new();
    let mut slot = NonceSlot::Empty;
    commit(&mut slot, &mut commitments, 1, 10);
    let mut other = NonceSlot::Empty;
    commit(&mut other, &mut commitments, 2, 20);
    assert!(prepare_signing(&mut slot, 1, 2, &commitments).is_ok());
    assert_eq!(prepare_signing(&mut slot, 1, 2, &commitments).unwrap_err(), CeremonyError::NonceAlreadyConsumed);
}

#[test]
fn signing_without_nonce_is_refused() {
    let commitments = IndexedSet::new();
    let mut slot = NonceSlot::Empty;
    assert_eq!(prepare_signing(&mut slot, 1, 1, &commitments).unwrap_err(), CeremonyError::MissingNonce);
}

#[test]
fn stale_commitment_is_refused() {
    let mut commitments = IndexedSet::new();
    let mut slot1 = NonceSlot::Empty;
    let mut slot2 = NonceSlot::Empty;
    commit(&mut slot1, &mut commitments, 1, 10);
    commit(&mut slot2, &mut commitments, 2, 20);
    slot2.store(vec![21, 0x01], vec![21, 0x02]);
    assert_eq!(
        prepare_signing(&mut slot2, 2, 2, &commitments).unwrap_err(),
        CeremonyError::InsufficientCommitments
    );
    assert!(matches!(slot2, NonceSlot::Fresh { .. }));
}

#[test]
fn too_few_commitments_are_refused() {
    let mut commitments = IndexedSet::new();
    let mut slot = NonceSlot::Empty;
    commit(&mut slot, &mut commitments, 1, 10);
    assert_eq!(
        prepare_signing(&mut slot, 1, 2, &commitments).unwrap_err(),
        CeremonyError::InsufficientCommitments
    );
}

#[test]
fn aggregation_needs_threshold_packages() {
    let message = vec![1u8, 2, 3];
    let mut packages = PackageSet::new();
    packages.record(3, 1, vec![0x51], &message).unwrap();
    assert_eq!(packages.aggregation_input(2).unwrap_err(), CeremonyError::InsufficientPackages);
    packages.record(3, 3, vec![0x53], &message).unwrap();
    assert_eq!(packages.aggregation_input(2).unwrap().len(), 2);
    packages.record(3, 2, vec![0x52], &message).unwrap();
    assert_eq!(packages.aggregation_input(2).unwrap().len(), 3);
}

#[test]
fn packages_over_another_message_are_refused() {
    let mut packages = PackageSet::new();
    packages.record(3, 1, vec![0x51], &vec![1, 2, 3]).unwrap();
    assert_eq!(
        packages.record(3, 2, vec![0x52], &vec![1, 2, 4]).unwrap_err(),
        CeremonyError::InconsistentPackages
    );
    assert_eq!(packages.len(), 1);
}

#[test]
fn group_signature_verifies_only_for_its_message() {
    let keypair = schnorrkel::MiniSecretKey::from_bytes(&secret(7))
        .unwrap()
        .expand_to_keypair(schnorrkel::ExpansionMode::Ed25519);
    let message = [1u8, 2, 3];
    let sig = keypair.sign_simple(b"substrate", &message).to_bytes();
    let key = keypair.public.to_bytes();
    assert!(verify_group_signature(&key, b"substrate", &message, &sig));
    assert!(!verify_group_signature(&key, b"substrate", &[1, 2, 4], &sig));
    assert!(!verify_group_signature(&key, b"substrate", &message, &sig[..63]));
}

#[test]
fn sets_survive_storage() {
    let set = full_contribution_set();
    let text = encode_set(&set);
    let back = decode_set(&text).unwrap();
    assert_eq!(back.entries(), set.entries());
    assert_eq!(text, "[[0,2,2,170],[0,1,1,170],[0,3,3,170]]");
}

#[test]
fn corrupt_sets_are_refused() {
    assert_eq!(decode_set("[[0,1,1],[0,1,2]]").unwrap_err(), CeremonyError::SerializationError);
    assert_eq!(decode_set("[[0]]").unwrap_err(), CeremonyError::SerializationError);
    assert_eq!(decode_set("not json").unwrap_err(), CeremonyError::SerializationError);
    assert_eq!(decode_set("[]").unwrap().len(), 0);
}

#[test]
fn slots_survive_storage() {
    for slot in [
        NonceSlot::Empty,
        NonceSlot::Fresh { nonce: vec![1, 2], commitment: vec![3] },
        NonceSlot::Consumed { commitment: vec![3, 4] },
    ] {
        let text = encode_slot(&slot);
        let back = decode_slot(&text).unwrap();
        assert_eq!(format!("{:?}", back), format!("{:?}", slot));
    }
    assert_eq!(decode_slot("[[7]]").unwrap_err(), CeremonyError::SerializationError);
}

#[test]
fn package_sets_survive_storage() {
    let mut packages = PackageSet::new();
    packages.record(3, 2, vec![0x52], &vec![1, 2, 3]).unwrap();
    let text = encode_packages(&packages);
    let back = decode_packages(&text).unwrap();
    assert_eq!(back.message_bytes(), &vec![1, 2, 3]);
    assert_eq!(back.packages().entries(), packages.packages().entries());
}

#[test]
fn byte_lists_survive_storage() {
    let v = vec![0u8, 255, 17];
    assert_eq!(decode_bytes(&encode_bytes(&v)).unwrap(), v);
    assert_eq!(decode_bytes("[1,2,300]").unwrap_err(), CeremonyError::SerializationError);
}

#[test]
fn secret_keys_are_read_from_hex() {
    let hex = "0101010101010101010101010101010101010101010101010101010101010101";
    assert_eq!(secret_key_from_hex(hex).unwrap(), [1u8; 32]);
    assert_eq!(secret_key_from_hex(&format!("  0x{}\n", hex)).unwrap(), [1u8; 32]);
    assert_eq!(parse_secret_key(&format!("\"0x{}\"", hex)).unwrap(), [1u8; 32]);
    assert_eq!(secret_key_from_hex("0x0101").unwrap_err(), CeremonyError::InvalidSecretKey);
    assert_eq!(secret_key_from_hex(&hex.replace('0', "g")).unwrap_err(), CeremonyError::InvalidSecretKey);
    assert_eq!(parse_secret_key("[1,2]").unwrap_err(), CeremonyError::SerializationError);
}

#[test]
fn parameters_survive_storage() {
    assert_eq!(decode_parameters(&encode_parameters(2, 3)).unwrap(), (2, 3));
    assert_eq!(decode_parameters(&encode_parameters(300, 1000)).unwrap(), (300, 1000));
    assert_eq!(decode_parameters(&encode_parameters(4, 3)).unwrap_err(), CeremonyError::InvalidThreshold);
    assert_eq!(decode_parameters(&encode_parameters(0, 3)).unwrap_err(), CeremonyError::InvalidThreshold);
    assert_eq!(decode_parameters("[0,2,0]").unwrap_err(), CeremonyError::SerializationError);
}

#[test]
fn recipient_lists_survive_storage() {
    let text = encode_byte_lists(&recipients());
    assert_eq!(decode_byte_lists(&text).unwrap(), recipients());
    assert_eq!(encode_byte_lists(&vec![vec![1, 2], vec![]]), "[[1,2],[]]");
    assert_eq!(decode_byte_lists("{}").unwrap_err(), CeremonyError::SerializationError);
}
