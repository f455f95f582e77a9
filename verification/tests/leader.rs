use paxos::ds::Accepted;
use paxos::env::{IpAddr, ProcessId};
use paxos::leader::{Leader, Phase, Spawn, Status};
use paxos::message::{Message, ProtocolError};
use paxos::pval::{BallotNumber, Command, PValue};

fn pid(id: u32) -> ProcessId {
    ProcessId::new(IpAddr::v4(127, 0, 0, 1), 6060, id)
}

fn cmd(name: &str) -> Command {
    Command::new_from_str(pid(100), name.to_string(), format!("op-{}", name))
}

fn active_leader(me: ProcessId) -> Leader {
    let mut l = Leader::new(me);
    let out = l.exec(Message::Adopt(pid(50), BallotNumber::first(me), Accepted::new())).unwrap();
    assert_eq!(out, vec![]);
    assert!(l.active());
    l
}

#[test]
fn new_leader_is_inactive_and_asks_for_a_scout() {
    let l = Leader::new(pid(1));
    assert_eq!(l.me(), pid(1));
    assert_eq!(l.ballot(), BallotNumber::first(pid(1)));
    assert!(!l.active());
    assert_eq!(l.proposal(1), None);
    assert_eq!(l.start(), Spawn::Scout(BallotNumber::new(0, pid(1))));
}

#[test]
fn inactive_leader_records_a_proposal_without_a_commander() {
    let mut l = Leader::new(pid(1));
    let out = l.exec(Message::Propose(pid(20), 1, cmd("a"))).unwrap();
    assert_eq!(out, vec![]);
    assert_eq!(l.proposal(1), Some((&cmd("a"), Status::Pending)));
}

#[test]
fn active_leader_starts_a_commander_for_a_new_slot_only() {
    let mut l = active_leader(pid(1));
    let b = l.ballot();
    let out = l.exec(Message::Propose(pid(20), 3, cmd("a"))).unwrap();
    assert_eq!(out, vec![Spawn::Commander(b, 3, cmd("a"))]);
    let out = l.exec(Message::Propose(pid(21), 3, cmd("b"))).unwrap();
    assert_eq!(out, vec![]);
    assert_eq!(l.proposal(3), Some((&cmd("a"), Status::Pending)));
}

#[test]
fn adopt_replays_every_pending_proposal_in_slot_order() {
    let me = pid(1);
    let mut l = Leader::new(me);
    l.exec(Message::Propose(pid(20), 5, cmd("five"))).unwrap();
    l.exec(Message::Propose(pid(20), 2, cmd("two"))).unwrap();
    l.exec(Message::Propose(pid(20), 9, cmd("nine"))).unwrap();
    let mut vals = Accepted::new();
    vals.insert(2, PValue::new(BallotNumber::new(0, pid(0)), 2, cmd("theirs")));
    vals.insert(7, PValue::new(BallotNumber::new(0, pid(0)), 7, cmd("seven")));
    let b = BallotNumber::first(me);
    let out = l.exec(Message::Adopt(pid(50), b, vals)).unwrap();
    assert_eq!(
        out,
        vec![
            Spawn::Commander(b, 2, cmd("theirs")),
            Spawn::Commander(b, 5, cmd("five")),
            Spawn::Commander(b, 7, cmd("seven")),
            Spawn::Commander(b, 9, cmd("nine")),
        ]
    );
    assert!(l.active());
    assert_eq!(l.proposal(2), Some((&cmd("theirs"), Status::Pending)));
    assert_eq!(l.proposal(7), Some((&cmd("seven"), Status::Pending)));
}

#[test]
fn adopt_for_another_ballot_is_discarded() {
    let me = pid(1);
    let mut l = Leader::new(me);
    l.exec(Message::Propose(pid(20), 1, cmd("a"))).unwrap();
    let mut vals = Accepted::new();
    vals.insert(1, PValue::new(BallotNumber::new(0, pid(0)), 1, cmd("theirs")));
    let out = l.exec(Message::Adopt(pid(50), BallotNumber::new(1, me), vals)).unwrap();
    assert_eq!(out, vec![]);
    assert!(!l.active());
    assert_eq!(l.proposal(1), Some((&cmd("a"), Status::Pending)));
}

#[test]
fn decision_marks_the_slot_done_and_adopt_skips_it() {
    let me = pid(1);
    let mut l = active_leader(me);
    l.exec(Message::Propose(pid(20), 1, cmd("a"))).unwrap();
    l.exec(Message::Propose(pid(20), 2, cmd("b"))).unwrap();
    let out = l.exec(Message::Decision(pid(60), 1, cmd("a"))).unwrap();
    assert_eq!(out, vec![]);
    assert_eq!(l.proposal(1), Some((&cmd("a"), Status::Done)));
    let b = l.ballot();
    let out = l.exec(Message::Adopt(pid(50), b, Accepted::new())).unwrap();
    assert_eq!(out, vec![Spawn::Commander(b, 2, cmd("b"))]);
}

#[test]
fn preempt_by_a_higher_ballot_moves_to_the_next_round() {
    let me = pid(1);
    let mut l = active_leader(me);
    let seen = BallotNumber::new(4, pid(2));
    let out = l.exec(Message::Preempt(pid(60), seen)).unwrap();
    assert_eq!(out, vec![Spawn::Scout(BallotNumber::new(5, me))]);
    assert_eq!(l.ballot(), BallotNumber::new(5, me));
    assert!(!l.active());
    assert!(seen < l.ballot());
}

#[test]
fn preempt_by_a_ballot_that_is_not_higher_is_ignored() {
    let me = pid(5);
    let mut l = active_leader(me);
    for seen in [BallotNumber::new(0, pid(1)), BallotNumber::new(0, me)] {
        let out = l.exec(Message::Preempt(pid(60), seen)).unwrap();
        assert_eq!(out, vec![]);
        assert_eq!(l.ballot(), BallotNumber::first(me));
        assert!(l.active());
    }
    // same round, higher owner: that one is above
    let out = l.exec(Message::Preempt(pid(60), BallotNumber::new(0, pid(6)))).unwrap();
    assert_eq!(out, vec![Spawn::Scout(BallotNumber::new(1, me))]);
}

#[test]
fn leader_refusals() {
    let me = pid(1);
    let mut l = active_leader(me);
    l.exec(Message::Propose(pid(20), 1, cmd("a"))).unwrap();
    assert_eq!(l.exec(Message::Decision(pid(60), 2, cmd("a"))), Err(ProtocolError::UnknownSlot));
    assert_eq!(
        l.exec(Message::Preempt(pid(60), BallotNumber::new(u64::MAX, pid(2)))),
        Err(ProtocolError::RoundOverflow)
    );
    let b = l.ballot();
    for m in [
        Message::P1A(pid(2), b),
        Message::P1B(pid(2), b, Accepted::new()),
        Message::P2A(pid(2), b, 1, cmd("x")),
        Message::P2B(pid(2), b, 1),
        Message::Request(pid(2), cmd("x")),
    ] {
        assert_eq!(l.exec(m), Err(ProtocolError::UnexpectedMessage));
    }
    assert_eq!(l.ballot(), b);
    assert!(l.active());
    assert_eq!(l.proposal(1), Some((&cmd("a"), Status::Pending)));
    assert_eq!(l.proposal(2), None);
}

#[test]
fn workers_get_the_leaders_address_and_a_fresh_instance() {
    let me = ProcessId::new(IpAddr::v4(10, 0, 0, 7), 7000, 1);
    let l = Leader::new(me);
    let s = l.scout(41);
    assert_eq!(s.me(), ProcessId::new(IpAddr::v4(10, 0, 0, 7), 7000, 41));
    assert_eq!(s.phase(), Phase::Created);
    let c = l.commander(BallotNumber::new(3, me), 8, cmd("a"), 42);
    assert_eq!(c.me(), ProcessId::new(IpAddr::v4(10, 0, 0, 7), 7000, 42));
    assert_eq!(c.phase(), Phase::Created);
}
