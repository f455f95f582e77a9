use paxos::env::{Cluster, IpAddr, ProcessId, ProcessType};
use paxos::message::{Message, ProtocolError, WireMessage};
use paxos::pval::{BallotNumber, Command};
use paxos::replica::{Replica, ReplicaOutput};

fn pid(id: u32) -> ProcessId {
    ProcessId::new(IpAddr::v4(127, 0, 0, 1), 6060, id)
}

fn cmd(name: &str) -> Command {
    Command::new_from_str(pid(100), name.to_string(), format!("op-{}", name))
}

fn leaders() -> Cluster {
    let mut c = Cluster::new();
    c.add(ProcessType::Leader, pid(10));
    c.add(ProcessType::Leader, pid(11));
    c
}

fn proposal(me: u32, slot: u64, c: Command) -> Vec<WireMessage> {
    let m = Message::Propose(pid(me), slot, c);
    vec![WireMessage::new(pid(10), m.clone()), WireMessage::new(pid(11), m)]
}

fn nothing() -> ReplicaOutput {
    ReplicaOutput { sent: vec![], performed: vec![] }
}

#[test]
fn new_replica_starts_at_slot_one() {
    let r = Replica::new(pid(20));
    assert_eq!(r.me(), pid(20));
    assert_eq!(r.slot(), 1);
    assert_eq!(r.decision(1), None);
    assert_eq!(r.proposal(1), None);
}

#[test]
fn requests_take_the_first_free_slots() {
    let mut r = Replica::new(pid(20));
    let out = r.exec(Message::Request(pid(100), cmd("a")), &leaders()).unwrap();
    assert_eq!(out, ReplicaOutput { sent: proposal(20, 1, cmd("a")), performed: vec![] });
    let out = r.exec(Message::Request(pid(100), cmd("b")), &leaders()).unwrap();
    assert_eq!(out, ReplicaOutput { sent: proposal(20, 2, cmd("b")), performed: vec![] });
    assert_eq!(r.proposal(1), Some(&cmd("a")));
    assert_eq!(r.proposal(2), Some(&cmd("b")));
    assert_eq!(r.slot(), 1);
}

#[test]
fn a_slot_with_a_decision_is_not_free() {
    let mut r = Replica::new(pid(20));
    r.exec(Message::Decision(pid(60), 2, cmd("x")), &leaders()).unwrap();
    r.exec(Message::Request(pid(100), cmd("a")), &leaders()).unwrap();
    let out = r.exec(Message::Request(pid(100), cmd("b")), &leaders()).unwrap();
    assert_eq!(out.sent, proposal(20, 3, cmd("b")));
}

#[test]
fn a_decided_command_is_not_proposed_again() {
    let mut r = Replica::new(pid(20));
    r.exec(Message::Decision(pid(60), 5, cmd("a")), &leaders()).unwrap();
    assert_eq!(r.exec(Message::Request(pid(100), cmd("a")), &leaders()), Ok(nothing()));
    assert_eq!(r.propose(cmd("a"), &leaders()), Ok(vec![]));
    assert_eq!(r.proposal(1), None);
}

#[test]
fn decisions_are_performed_in_slot_order() {
    let mut r = Replica::new(pid(20));
    assert_eq!(r.exec(Message::Decision(pid(60), 2, cmd("b")), &leaders()), Ok(nothing()));
    assert_eq!(r.exec(Message::Decision(pid(60), 3, cmd("c")), &leaders()), Ok(nothing()));
    assert_eq!(r.slot(), 1);
    let out = r.exec(Message::Decision(pid(60), 1, cmd("a")), &leaders()).unwrap();
    assert_eq!(out, ReplicaOutput { sent: vec![], performed: vec![cmd("a"), cmd("b"), cmd("c")] });
    assert_eq!(r.slot(), 4);
}

#[test]
fn the_same_decision_twice_performs_once() {
    let mut r = Replica::new(pid(20));
    let out = r.exec(Message::Decision(pid(60), 1, cmd("a")), &leaders()).unwrap();
    assert_eq!(out.performed, vec![cmd("a")]);
    assert_eq!(r.slot(), 2);
    assert_eq!(r.exec(Message::Decision(pid(61), 1, cmd("a")), &leaders()), Ok(nothing()));
    assert_eq!(r.slot(), 2);
    assert_eq!(r.decision(1), Some(&cmd("a")));
}

#[test]
fn a_command_decided_for_two_slots_is_executed_once() {
    let mut r = Replica::new(pid(20));
    let out = r.exec(Message::Decision(pid(60), 1, cmd("a")), &leaders()).unwrap();
    assert_eq!(out.performed, vec![cmd("a")]);
    let out = r.exec(Message::Decision(pid(61), 2, cmd("a")), &leaders()).unwrap();
    assert_eq!(out, nothing());
    assert_eq!(r.slot(), 3);
    // also when both are there before either is performed
    let mut r = Replica::new(pid(21));
    r.exec(Message::Decision(pid(60), 2, cmd("a")), &leaders()).unwrap();
    r.exec(Message::Decision(pid(60), 3, cmd("b")), &leaders()).unwrap();
    let out = r.exec(Message::Decision(pid(60), 1, cmd("a")), &leaders()).unwrap();
    assert_eq!(out.performed, vec![cmd("a"), cmd("b")]);
    assert_eq!(r.slot(), 4);
}

#[test]
fn a_displaced_proposal_moves_to_a_new_slot() {
    let mut r = Replica::new(pid(20));
    r.exec(Message::Request(pid(100), cmd("mine")), &leaders()).unwrap();
    let out = r.exec(Message::Decision(pid(60), 1, cmd("theirs")), &leaders()).unwrap();
    assert_eq!(
        out,
        ReplicaOutput { sent: proposal(20, 2, cmd("mine")), performed: vec![cmd("theirs")] }
    );
    assert_eq!(r.proposal(2), Some(&cmd("mine")));
    assert_eq!(r.slot(), 2);
    let out = r.exec(Message::Decision(pid(60), 2, cmd("mine")), &leaders()).unwrap();
    assert_eq!(out, ReplicaOutput { sent: vec![], performed: vec![cmd("mine")] });
}

#[test]
fn a_proposal_that_was_decided_is_not_moved() {
    let mut r = Replica::new(pid(20));
    r.exec(Message::Request(pid(100), cmd("mine")), &leaders()).unwrap();
    let out = r.exec(Message::Decision(pid(60), 1, cmd("mine")), &leaders()).unwrap();
    assert_eq!(out, ReplicaOutput { sent: vec![], performed: vec![cmd("mine")] });
}

#[test]
fn perform_tells_whether_to_execute() {
    let mut r = Replica::new(pid(20));
    r.exec(Message::Decision(pid(60), 1, cmd("a")), &leaders()).unwrap();
    assert_eq!(r.slot(), 2);
    assert!(!r.perform(cmd("a")));
    assert_eq!(r.slot(), 3);
    assert!(r.perform(cmd("b")));
    assert_eq!(r.slot(), 4);
}

#[test]
fn the_last_slot_is_recorded_and_never_performed() {
    let mut r = Replica::new(pid(20));
    assert_eq!(r.exec(Message::Decision(pid(60), u64::MAX, cmd("a")), &leaders()), Ok(nothing()));
    assert_eq!(r.decision(u64::MAX), Some(&cmd("a")));
    assert_eq!(r.exec(Message::Request(pid(100), cmd("a")), &leaders()), Ok(nothing()));
}

#[test]
fn replica_refuses_other_messages() {
    let mut r = Replica::new(pid(20));
    let b = BallotNumber::new(1, pid(10));
    for m in [
        Message::P1A(pid(2), b),
        Message::P2A(pid(2), b, 1, cmd("x")),
        Message::P2B(pid(2), b, 1),
        Message::Preempt(pid(2), b),
        Message::Propose(pid(2), 1, cmd("x")),
    ] {
        assert_eq!(r.exec(m, &leaders()), Err(ProtocolError::UnexpectedMessage));
    }
    assert_eq!(r.slot(), 1);
    assert_eq!(r.proposal(1), None);
}

#[test]
fn without_leaders_a_proposal_is_recorded_and_sent_to_nobody() {
    let mut r = Replica::new(pid(20));
    assert_eq!(r.propose(cmd("a"), &Cluster::new()), Ok(vec![]));
    assert_eq!(r.proposal(1), Some(&cmd("a")));
}
