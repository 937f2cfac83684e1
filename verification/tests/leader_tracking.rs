use narwhal_bft::bft::BFT;
use narwhal_bft::certificate::{find_certificate_by_author, BatchCertificate};
use narwhal_bft::committee::{Committee, Member};
use narwhal_bft::errors::BftError;
use narwhal_bft::previous_round;
use narwhal_bft::storage::Storage;

fn equal_stake_committee() -> Committee {
    Committee::new(vec![
        Member { id: 1, stake: 1 },
        Member { id: 2, stake: 1 },
        Member { id: 3, stake: 1 },
    ])
    .unwrap()
}

#[test]
fn previous_round_saturates_at_zero() {
    assert_eq!(previous_round(0), 0);
    assert_eq!(previous_round(1), 0);
    assert_eq!(previous_round(6), 5);
}

#[test]
fn leader_selection_is_deterministic() {
    let c1 = equal_stake_committee();
    let c2 = equal_stake_committee();
    for round in 0..20u64 {
        let first = c1.leader_for(round);
        let second = c1.leader_for(round);
        assert_eq!(first, second);
        assert_eq!(first, c2.leader_for(round));
    }
}

#[test]
fn leader_is_a_member() {
    let c = equal_stake_committee();
    for round in 0..50u64 {
        let leader = c.leader_for(round);
        assert!(leader == 1 || leader == 2 || leader == 3);
    }
}

#[test]
fn singleton_committee_always_leads() {
    let c = Committee::new(vec![Member { id: 7, stake: 5 }]).unwrap();
    for round in 0..10u64 {
        assert_eq!(c.leader_for(round), 7);
    }
}

#[test]
fn zero_stake_member_is_never_leader() {
    let c = Committee::new(vec![Member { id: 1, stake: 0 }, Member { id: 2, stake: 4 }]).unwrap();
    for round in 0..50u64 {
        assert_eq!(c.leader_for(round), 2);
    }
}

#[test]
fn committee_rejects_bad_member_lists() {
    assert!(Committee::new(vec![]).is_none());
    assert!(Committee::new(vec![Member { id: 1, stake: 1 }, Member { id: 1, stake: 2 }]).is_none());
    assert!(Committee::new(vec![Member { id: 1, stake: 0 }, Member { id: 2, stake: 0 }]).is_none());
    assert!(
        Committee::new(vec![
            Member { id: 1, stake: u64::MAX },
            Member { id: 2, stake: u64::MAX },
        ])
        .is_none()
    );
    let c = Committee::new(vec![Member { id: 4, stake: 2 }, Member { id: 9, stake: 3 }]).unwrap();
    assert_eq!(c.total_stake(), 5);
    assert_eq!(c.len(), 2);
}

#[test]
fn update_is_noop_on_odd_rounds() {
    let mut storage = Storage::new();
    storage.insert_committee(4, equal_stake_committee()).unwrap();
    storage.set_current_round(5);
    let mut bft = BFT::new(storage);
    assert!(bft.update_leader_certificate().is_ok());
    assert!(bft.leader_certificate().is_none());
    assert!(bft.leader().is_none());
}

#[test]
fn update_with_empty_previous_round_clears_leader() {
    let mut storage = Storage::new();
    storage.insert_committee(4, equal_stake_committee()).unwrap();
    storage.set_current_round(4);
    let mut bft = BFT::new(storage);
    assert!(bft.update_leader_certificate().is_ok());
    assert!(bft.leader_certificate().is_none());
}

#[test]
fn update_at_round_zero_does_not_fail() {
    let storage = Storage::new();
    assert_eq!(storage.current_round(), 0);
    let mut bft = BFT::new(storage);
    assert!(bft.update_leader_certificate().is_ok());
    assert!(bft.leader_certificate().is_none());
}

#[test]
fn update_finds_the_leader_certificate() {
    // The scenario of an equal-stake committee at even round 4: round 3
    // holds certificates from every member, so the update must pick exactly
    // the leader's certificate.
    let committee = equal_stake_committee();
    let leader = committee.leader_for(4);
    let mut storage = Storage::new();
    storage.insert_committee(4, committee).unwrap();
    for author in 1..=3u64 {
        storage
            .insert_certificate(BatchCertificate::new(author, 3, 100 + author))
            .unwrap();
    }
    storage.set_current_round(4);
    let mut bft = BFT::new(storage);
    assert!(bft.update_leader_certificate().is_ok());
    let cert = bft.leader_certificate().unwrap();
    assert_eq!(cert.author(), leader);
    assert_eq!(cert.round(), 3);
    assert_eq!(cert.digest(), 100 + leader);
    assert_eq!(bft.leader(), Some(leader));
}

#[test]
fn absent_leader_yields_no_certificate() {
    // Same scenario, but the leader did not certify in round 3: the two
    // other members did, and the leader certificate must become None.
    let committee = equal_stake_committee();
    let leader = committee.leader_for(4);
    let mut storage = Storage::new();
    storage.insert_committee(4, committee).unwrap();
    for author in 1..=3u64 {
        if author != leader {
            storage
                .insert_certificate(BatchCertificate::new(author, 3, 200 + author))
                .unwrap();
        }
    }
    storage.set_current_round(4);
    let mut bft = BFT::new(storage);
    assert!(bft.update_leader_certificate().is_ok());
    assert!(bft.leader_certificate().is_none());
    assert!(bft.leader().is_none());
}

#[test]
fn missing_committee_fails_and_preserves_state() {
    // First establish a leader certificate at round 4, then move to round 6
    // where no committee is registered: the update must fail with the
    // explicit error and leave the previous leader certificate untouched.
    let committee = equal_stake_committee();
    let leader = committee.leader_for(4);
    let mut storage = Storage::new();
    storage.insert_committee(4, committee).unwrap();
    for author in 1..=3u64 {
        storage
            .insert_certificate(BatchCertificate::new(author, 3, 300 + author))
            .unwrap();
    }
    storage.set_current_round(4);
    let mut bft = BFT::new(storage);
    assert!(bft.update_leader_certificate().is_ok());
    let before = *bft.leader_certificate();
    assert_eq!(before.unwrap().author(), leader);

    bft.primary.storage.set_current_round(6);
    // A certificate exists for round 5 so the committee lookup is reached.
    assert!(bft
        .primary
        .admit_certificate(BatchCertificate::new(1, 5, 501))
        .is_ok());
    let result = bft.update_leader_certificate();
    assert_eq!(result, Err(BftError::MissingCommittee));
    assert_eq!(*bft.leader_certificate(), before);
}

#[test]
fn storage_rejects_duplicate_certificates_and_committees() {
    let mut storage = Storage::new();
    storage
        .insert_certificate(BatchCertificate::new(1, 2, 10))
        .unwrap();
    assert_eq!(
        storage.insert_certificate(BatchCertificate::new(1, 2, 99)),
        Err(BftError::DuplicateCertificate)
    );
    storage
        .insert_certificate(BatchCertificate::new(1, 3, 11))
        .unwrap();
    storage.insert_committee(2, equal_stake_committee()).unwrap();
    assert_eq!(
        storage.insert_committee(2, equal_stake_committee()),
        Err(BftError::DuplicateCommittee)
    );
    assert!(storage.get_committee(2).is_some());
    assert!(storage.get_committee(4).is_none());
}

#[test]
fn certificates_for_round_keep_admission_order() {
    let mut storage = Storage::new();
    storage
        .insert_certificate(BatchCertificate::new(5, 1, 1))
        .unwrap();
    storage
        .insert_certificate(BatchCertificate::new(2, 1, 2))
        .unwrap();
    storage
        .insert_certificate(BatchCertificate::new(9, 2, 3))
        .unwrap();
    storage
        .insert_certificate(BatchCertificate::new(4, 1, 4))
        .unwrap();
    let round_one = storage.get_certificates_for_round(1);
    assert_eq!(round_one.len(), 3);
    assert_eq!(round_one[0].author(), 5);
    assert_eq!(round_one[1].author(), 2);
    assert_eq!(round_one[2].author(), 4);
    assert!(storage.get_certificates_for_round(7).is_empty());
}

#[test]
fn find_certificate_by_author_takes_first_match() {
    let certs = vec![
        BatchCertificate::new(3, 1, 30),
        BatchCertificate::new(5, 1, 50),
        BatchCertificate::new(3, 2, 31),
    ];
    let found = find_certificate_by_author(&certs, 3).unwrap();
    assert_eq!(found.digest(), 30);
    assert!(find_certificate_by_author(&certs, 8).is_none());
}
