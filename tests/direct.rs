use statement_distribution::{
    AcceptIncoming, CandidateHash, DirectInGroup, RejectIncoming, ValidatorIndex,
};

fn v(i: u32) -> ValidatorIndex {
    ValidatorIndex(i)
}

fn c(b: u8) -> CandidateHash {
    CandidateHash([b; 32])
}

fn group(n: u32) -> Vec<ValidatorIndex> {
    (0..n).map(v).collect()
}

#[test]
fn construction_requires_own_identity_in_group() {
    assert!(DirectInGroup::new(Vec::new(), v(0), 1).is_none());
    assert!(DirectInGroup::new(vec![v(1), v(2)], v(0), 1).is_none());
    assert!(DirectInGroup::new(vec![v(1), v(2)], v(3), 2).is_none());
    assert!(DirectInGroup::new(vec![v(1), v(2)], v(2), 1).is_some());
    assert!(DirectInGroup::new(vec![v(7)], v(7), 3).is_some());
}

#[test]
fn own_identity_is_found_by_value_not_by_session_index() {
    // Our session index exceeds the group size; we still belong to the group.
    let mut t = DirectInGroup::new(vec![v(10), v(20), v(30)], v(30), 1).unwrap();
    assert_eq!(
        t.handle_incoming_seconded(v(30), v(10), c(1)),
        Err(RejectIncoming::NotInGroup)
    );
    assert_eq!(
        t.handle_incoming_seconded(v(10), v(20), c(1)),
        Ok(AcceptIncoming::YesUnknown)
    );
}

#[test]
fn scenario_four_members_limit_one() {
    let mut t = DirectInGroup::new(group(4), v(0), 1).unwrap();
    assert_eq!(
        t.handle_incoming_seconded(v(1), v(2), c(1)),
        Ok(AcceptIncoming::YesUnknown)
    );
    assert_eq!(
        t.handle_incoming_seconded(v(1), v(2), c(1)),
        Err(RejectIncoming::PeerExcess)
    );
    assert_eq!(
        t.handle_incoming_seconded(v(3), v(2), c(2)),
        Err(RejectIncoming::OriginatorExcess)
    );
    assert_eq!(
        t.handle_incoming_seconded(v(2), v(1), c(3)),
        Ok(AcceptIncoming::YesUnknown)
    );
}

#[test]
fn peer_quota_accepts_first_limit_distinct_candidates() {
    let mut t = DirectInGroup::new(group(3), v(0), 2).unwrap();
    assert_eq!(
        t.handle_incoming_seconded(v(1), v(2), c(1)),
        Ok(AcceptIncoming::YesUnknown)
    );
    assert_eq!(
        t.handle_incoming_seconded(v(1), v(2), c(2)),
        Ok(AcceptIncoming::YesUnknown)
    );
    assert_eq!(
        t.handle_incoming_seconded(v(1), v(2), c(3)),
        Err(RejectIncoming::PeerExcess)
    );
    assert_eq!(
        t.handle_incoming_seconded(v(1), v(2), c(4)),
        Err(RejectIncoming::PeerExcess)
    );
}

#[test]
fn resubmission_is_rejected() {
    let mut t = DirectInGroup::new(group(3), v(0), 3).unwrap();
    assert_eq!(
        t.handle_incoming_seconded(v(2), v(1), c(9)),
        Ok(AcceptIncoming::YesUnknown)
    );
    for _ in 0..3 {
        assert_eq!(
            t.handle_incoming_seconded(v(2), v(1), c(9)),
            Err(RejectIncoming::PeerExcess)
        );
    }
    // The row still has room for other candidates.
    assert_eq!(
        t.handle_incoming_seconded(v(2), v(1), c(8)),
        Ok(AcceptIncoming::YesUnknown)
    );
}

#[test]
fn candidate_relayed_by_second_peer_is_known() {
    let mut t = DirectInGroup::new(group(4), v(0), 1).unwrap();
    assert_eq!(
        t.handle_incoming_seconded(v(1), v(2), c(5)),
        Ok(AcceptIncoming::YesUnknown)
    );
    assert_eq!(
        t.handle_incoming_seconded(v(3), v(2), c(5)),
        Ok(AcceptIncoming::YesKnown)
    );
    assert_eq!(
        t.handle_incoming_seconded(v(2), v(2), c(5)),
        Ok(AcceptIncoming::YesKnown)
    );
}

#[test]
fn originator_quota_holds_across_peers() {
    let mut t = DirectInGroup::new(group(4), v(0), 2).unwrap();
    assert_eq!(
        t.handle_incoming_seconded(v(1), v(3), c(1)),
        Ok(AcceptIncoming::YesUnknown)
    );
    assert_eq!(
        t.handle_incoming_seconded(v(2), v(3), c(2)),
        Ok(AcceptIncoming::YesUnknown)
    );
    assert_eq!(
        t.handle_incoming_seconded(v(2), v(3), c(3)),
        Err(RejectIncoming::OriginatorExcess)
    );
    // The rejected claim still used up the last slot of peer 2's row.
    assert_eq!(
        t.handle_incoming_seconded(v(2), v(3), c(4)),
        Err(RejectIncoming::PeerExcess)
    );
    // Peer 1 still has room, but the originator has none.
    assert_eq!(
        t.handle_incoming_seconded(v(1), v(3), c(4)),
        Err(RejectIncoming::OriginatorExcess)
    );
    // Candidates already known for the originator are still accepted.
    assert_eq!(
        t.handle_incoming_seconded(v(3), v(3), c(1)),
        Ok(AcceptIncoming::YesKnown)
    );
}

#[test]
fn statements_outside_group_are_rejected_without_effect() {
    let mut t = DirectInGroup::new(group(3), v(1), 1).unwrap();
    let outside = [
        (v(1), v(2)),
        (v(2), v(1)),
        (v(1), v(1)),
        (v(5), v(2)),
        (v(2), v(5)),
        (v(5), v(6)),
    ];
    for (s, o) in outside {
        assert_eq!(
            t.handle_incoming_seconded(s, o, c(1)),
            Err(RejectIncoming::NotInGroup)
        );
    }
    // Nothing was recorded: the first real claim is new.
    assert_eq!(
        t.handle_incoming_seconded(v(0), v(2), c(1)),
        Ok(AcceptIncoming::YesUnknown)
    );
}

#[test]
fn sender_and_originator_are_resolved_independently() {
    let mut t = DirectInGroup::new(group(4), v(0), 1).unwrap();
    assert_eq!(
        t.handle_incoming_seconded(v(1), v(2), c(1)),
        Ok(AcceptIncoming::YesUnknown)
    );
    // Same sender, another originator: a separate row and a separate quota.
    assert_eq!(
        t.handle_incoming_seconded(v(1), v(3), c(2)),
        Ok(AcceptIncoming::YesUnknown)
    );
    assert_eq!(
        t.handle_incoming_seconded(v(1), v(1), c(3)),
        Ok(AcceptIncoming::YesUnknown)
    );
}

#[test]
fn incoming_rows_are_disjoint_for_every_own_position() {
    let n: u32 = 4;
    let limit: usize = 2;
    for own in 0..n {
        let mut t = DirectInGroup::new(group(n), v(own), limit).unwrap();
        let mut next: u8 = 0;
        for s in 0..n {
            for o in 0..n {
                for _ in 0..limit {
                    next += 1;
                    let r = t.handle_incoming_seconded(v(s), v(o), c(next));
                    if s == own || o == own {
                        assert_eq!(r, Err(RejectIncoming::NotInGroup));
                    } else {
                        assert_ne!(r, Err(RejectIncoming::PeerExcess));
                    }
                }
            }
        }
        for s in 0..n {
            for o in 0..n {
                if s != own && o != own {
                    assert_eq!(
                        t.handle_incoming_seconded(v(s), v(o), c(200)),
                        Err(RejectIncoming::PeerExcess)
                    );
                }
            }
        }
    }
}

#[test]
fn zero_limit_rejects_every_claim() {
    let mut t = DirectInGroup::new(group(2), v(0), 0).unwrap();
    assert_eq!(
        t.handle_incoming_seconded(v(1), v(1), c(1)),
        Err(RejectIncoming::PeerExcess)
    );
}

#[test]
fn candidate_hashes_compare_by_bytes() {
    let mut a = [0u8; 32];
    a[31] = 1;
    assert_eq!(CandidateHash(a), CandidateHash(a));
    assert_ne!(CandidateHash(a), CandidateHash([0u8; 32]));
}
