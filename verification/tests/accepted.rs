use paxos::ds::{ascending_keys, Accepted};
use paxos::env::{IpAddr, ProcessId};
use paxos::pval::{BallotNumber, Command, PValue};
use std::collections::HashMap;

fn pid(id: u32) -> ProcessId {
    ProcessId::new(IpAddr::v4(127, 0, 0, 1), 6060, id)
}

fn pv(round: u64, owner: u32, slot: u64, name: &str) -> PValue {
    PValue::new(
        BallotNumber::new(round, pid(owner)),
        slot,
        Command::new_from_str(pid(100), name.to_string(), "op".to_string()),
    )
}

#[test]
fn insert_keeps_the_higher_ballot() {
    let mut a = Accepted::new();
    a.insert(7, pv(1, 1, 7, "low"));
    assert_eq!(a.get(7), Some(&pv(1, 1, 7, "low")));
    a.insert(7, pv(2, 2, 7, "high"));
    assert_eq!(a.get(7), Some(&pv(2, 2, 7, "high")));
    a.insert(7, pv(1, 3, 7, "late-low"));
    assert_eq!(a.get(7), Some(&pv(2, 2, 7, "high")));
    assert_eq!(a.len(), 1);
}

#[test]
fn insert_at_equal_ballot_keeps_what_is_there() {
    let mut a = Accepted::new();
    a.insert(1, pv(1, 1, 1, "first"));
    a.insert(1, pv(1, 1, 1, "second"));
    assert_eq!(a.get(1), Some(&pv(1, 1, 1, "first")));
}

#[test]
fn owner_breaks_ties_between_equal_rounds() {
    let mut a = Accepted::new();
    a.insert(1, pv(1, 1, 1, "owner-1"));
    a.insert(1, pv(1, 2, 1, "owner-2"));
    assert_eq!(a.get(1), Some(&pv(1, 2, 1, "owner-2")));
}

#[test]
fn extend_takes_the_per_slot_maximum() {
    let mut a = Accepted::new();
    a.insert(1, pv(1, 1, 1, "a1"));
    a.insert(2, pv(3, 1, 2, "a2"));
    a.insert(3, pv(2, 1, 3, "a3"));
    let mut b = Accepted::new();
    b.insert(2, pv(2, 1, 2, "b2"));
    b.insert(3, pv(2, 2, 3, "b3"));
    b.insert(4, pv(1, 1, 4, "b4"));
    a.extend(b);
    assert_eq!(a.len(), 4);
    assert_eq!(a.get(1), Some(&pv(1, 1, 1, "a1")));
    assert_eq!(a.get(2), Some(&pv(3, 1, 2, "a2")));
    assert_eq!(a.get(3), Some(&pv(2, 2, 3, "b3")));
    assert_eq!(a.get(4), Some(&pv(1, 1, 4, "b4")));
    assert_eq!(a.get(5), None);
}

#[test]
fn slots_come_in_ascending_order() {
    let mut a = Accepted::new();
    for s in [9u64, 3, u64::MAX, 0, 12, 5] {
        a.insert(s, pv(1, 1, s, "c"));
    }
    assert_eq!(a.slots(), vec![0, 3, 5, 9, 12, u64::MAX]);
    assert_eq!(Accepted::new().slots(), vec![]);
}

#[test]
fn ascending_keys_sorts_any_map() {
    let mut m: HashMap<u64, &str> = HashMap::new();
    for (i, k) in [50u64, 2, 77, 1, 1000, 31, 8].iter().enumerate() {
        m.insert(*k, if i % 2 == 0 { "even" } else { "odd" });
    }
    assert_eq!(ascending_keys(&m), vec![1, 2, 8, 31, 50, 77, 1000]);
}

#[test]
fn clone_is_equal_and_independent() {
    let mut a = Accepted::new();
    a.insert(1, pv(1, 1, 1, "a1"));
    let c = a.clone();
    assert_eq!(a, c);
    a.insert(2, pv(1, 1, 2, "a2"));
    assert_eq!(c.len(), 1);
    assert_ne!(a, c);
}

#[test]
fn iter_lists_the_entries_in_slot_order() {
    let mut a = Accepted::new();
    a.insert(9, pv(1, 1, 9, "nine"));
    a.insert(2, pv(2, 1, 2, "two"));
    let entries = a.iter();
    assert_eq!(entries, vec![(2, &pv(2, 1, 2, "two")), (9, &pv(1, 1, 9, "nine"))]);
    assert_eq!(Accepted::new().iter(), vec![]);
}

#[test]
fn map_keeps_the_slots() {
    let mut a = Accepted::new();
    a.insert(9, pv(1, 1, 9, "nine"));
    a.insert(2, pv(2, 1, 2, "two"));
    let rounds = a.map(|p| p.ballot.round * 10 + p.slot);
    assert_eq!(rounds.len(), 2);
    assert_eq!(rounds[&9], 19);
    assert_eq!(rounds[&2], 22);
}
