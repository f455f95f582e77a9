use paxos::env::{IpAddr, ProcessId};
use paxos::pval::BallotNumber;

fn pid(id: u32) -> ProcessId {
    ProcessId::new(IpAddr::v4(127, 0, 0, 1), 6060, id)
}

#[test]
fn ballots_order_by_round_then_owner() {
    let a = pid(1);
    let b = pid(2);
    assert!(BallotNumber::new(1, a) < BallotNumber::new(1, b));
    assert!(!(BallotNumber::new(1, b) < BallotNumber::new(1, a)));
    assert!(!(BallotNumber::new(1, a) < BallotNumber::new(1, a)));
    assert!(BallotNumber::new(1, b) < BallotNumber::new(2, a));
    assert!(BallotNumber::new(1, a) < BallotNumber::new(2, a));
    assert!(BallotNumber::new(1, a) <= BallotNumber::new(1, a));
    assert!(BallotNumber::new(2, a) > BallotNumber::new(1, b));
}

#[test]
fn first_ballot_is_round_zero() {
    let a = pid(7);
    assert_eq!(BallotNumber::first(a), BallotNumber::new(0, a));
    assert_eq!(BallotNumber::first(a).round, 0);
    assert_eq!(BallotNumber::first(a).process_id, a);
}

#[test]
fn hand_written_order_agrees_with_total_order() {
    let ids = [
        ProcessId::new(IpAddr::v4(10, 0, 0, 1), 1, 1),
        ProcessId::new(IpAddr::v4(10, 0, 0, 1), 1, 2),
        ProcessId::new(IpAddr::v4(10, 0, 0, 1), 2, 0),
        ProcessId::new(IpAddr::v4(10, 0, 0, 2), 0, 0),
        ProcessId::new(IpAddr::V6(0), 0, 0),
        ProcessId::new(IpAddr::V6(1 << 100), 0, 0),
    ];
    for i in 0..ids.len() {
        for j in 0..ids.len() {
            assert_eq!(ids[i] < ids[j], i < j);
            assert_eq!(ids[i].cmp(&ids[j]), i.cmp(&j));
            assert_eq!(ids[i].partial_cmp(&ids[j]), Some(i.cmp(&j)));
            let x = BallotNumber::new(5, ids[i]);
            let y = BallotNumber::new(5, ids[j]);
            assert_eq!(x.cmp(&y), i.cmp(&j));
            assert_eq!(x.partial_cmp(&y), Some(i.cmp(&j)));
        }
    }
}

#[test]
fn v4_address_is_its_number() {
    assert_eq!(IpAddr::v4(127, 0, 0, 1), IpAddr::V4(0x7f00_0001));
    assert_eq!(IpAddr::v4(255, 255, 255, 255), IpAddr::V4(u32::MAX));
    assert_eq!(IpAddr::v4(0, 0, 0, 0), IpAddr::V4(0));
    assert!(IpAddr::v4(9, 255, 255, 255) < IpAddr::v4(10, 0, 0, 0));
    assert!(IpAddr::v4(255, 255, 255, 255) < IpAddr::V6(0));
}
