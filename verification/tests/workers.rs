use paxos::ds::Accepted;
use paxos::env::{Cluster, IpAddr, ProcessId, ProcessType};
use paxos::leader::{Commander, Phase, Scout};
use paxos::message::{Message, ProtocolError, WireMessage};
use paxos::pval::{BallotNumber, Command, PValue};

fn pid(id: u32) -> ProcessId {
    ProcessId::new(IpAddr::v4(127, 0, 0, 1), 6060, id)
}

fn cmd(name: &str) -> Command {
    Command::new_from_str(pid(100), name.to_string(), format!("op-{}", name))
}

fn cluster(acceptors: &[u32], replicas: &[u32]) -> Cluster {
    let mut c = Cluster::new();
    for a in acceptors {
        c.add(ProcessType::Acceptor, pid(*a));
    }
    for r in replicas {
        c.add(ProcessType::Replica, pid(*r));
    }
    c
}

fn to(target: u32, m: Message) -> WireMessage {
    WireMessage::new(pid(target), m)
}

const LEADER: u32 = 10;
const ME: u32 = 50;

fn ballot() -> BallotNumber {
    BallotNumber::new(3, pid(LEADER))
}

#[test]
fn scout_asks_every_acceptor() {
    let mut s = Scout::new(pid(ME), pid(LEADER), ballot());
    assert_eq!(s.phase(), Phase::Created);
    let out = s.start(&cluster(&[1, 2, 3], &[]));
    let ask = Message::P1A(pid(ME), ballot());
    assert_eq!(out, vec![to(1, ask.clone()), to(2, ask.clone()), to(3, ask.clone())]);
    assert_eq!(s.phase(), Phase::Waiting);
    assert_eq!(s.start(&cluster(&[1, 2, 3], &[])), vec![]);
}

#[test]
fn scout_adopts_after_a_strict_majority_of_three() {
    let mut s = Scout::new(pid(ME), pid(LEADER), ballot());
    s.start(&cluster(&[1, 2, 3], &[]));
    assert_eq!(s.exec(Message::P1B(pid(1), ballot(), Accepted::new())), Ok(vec![]));
    assert_eq!(s.phase(), Phase::Waiting);
    // the same acceptor again does not count twice
    assert_eq!(s.exec(Message::P1B(pid(1), ballot(), Accepted::new())), Ok(vec![]));
    // nor does a process that is no acceptor
    assert_eq!(s.exec(Message::P1B(pid(9), ballot(), Accepted::new())), Ok(vec![]));
    assert_eq!(s.phase(), Phase::Waiting);
    let out = s.exec(Message::P1B(pid(3), ballot(), Accepted::new())).unwrap();
    assert_eq!(out, vec![to(LEADER, Message::Adopt(pid(ME), ballot(), Accepted::new()))]);
    assert_eq!(s.phase(), Phase::Finished);
    // whatever comes now is ignored
    assert_eq!(s.exec(Message::P1B(pid(2), ballot(), Accepted::new())), Ok(vec![]));
    assert_eq!(s.exec(Message::Request(pid(2), cmd("x"))), Ok(vec![]));
}

#[test]
fn one_acceptor_is_its_own_majority() {
    let mut s = Scout::new(pid(ME), pid(LEADER), ballot());
    let out = s.start(&cluster(&[1], &[]));
    assert_eq!(out, vec![to(1, Message::P1A(pid(ME), ballot()))]);
    assert_eq!(s.phase(), Phase::Waiting);
    let out = s.exec(Message::P1B(pid(1), ballot(), Accepted::new())).unwrap();
    assert_eq!(out, vec![to(LEADER, Message::Adopt(pid(ME), ballot(), Accepted::new()))]);

    let mut c = Commander::new(&pid(ME), &pid(LEADER), ballot(), 1, cmd("a"));
    let out = c.start(&cluster(&[1], &[20]));
    assert_eq!(out, vec![to(1, Message::P2A(pid(ME), ballot(), 1, cmd("a")))]);
    let out = c.exec(Message::P2B(pid(1), ballot(), 1)).unwrap();
    let decision = Message::Decision(pid(ME), 1, cmd("a"));
    assert_eq!(out, vec![to(20, decision.clone()), to(LEADER, decision)]);
}

#[test]
fn two_acceptors_need_both() {
    let mut s = Scout::new(pid(ME), pid(LEADER), ballot());
    s.start(&cluster(&[1, 2], &[]));
    assert_eq!(s.exec(Message::P1B(pid(1), ballot(), Accepted::new())), Ok(vec![]));
    assert_eq!(s.phase(), Phase::Waiting);
    let out = s.exec(Message::P1B(pid(2), ballot(), Accepted::new())).unwrap();
    assert_eq!(out.len(), 1);
    assert_eq!(s.phase(), Phase::Finished);

    let mut c = Commander::new(&pid(ME), &pid(LEADER), ballot(), 1, cmd("a"));
    c.start(&cluster(&[1, 2], &[20]));
    assert_eq!(c.exec(Message::P2B(pid(2), ballot(), 1)), Ok(vec![]));
    assert_eq!(c.phase(), Phase::Waiting);
    assert_eq!(c.exec(Message::P2B(pid(1), ballot(), 1)).unwrap().len(), 2);
    assert_eq!(c.phase(), Phase::Finished);
}

#[test]
fn four_acceptors_need_three() {
    let mut c = Commander::new(&pid(ME), &pid(LEADER), ballot(), 1, cmd("a"));
    c.start(&cluster(&[1, 2, 3, 4], &[]));
    assert_eq!(c.exec(Message::P2B(pid(1), ballot(), 1)), Ok(vec![]));
    assert_eq!(c.exec(Message::P2B(pid(2), ballot(), 1)), Ok(vec![]));
    assert_eq!(c.phase(), Phase::Waiting);
    let out = c.exec(Message::P2B(pid(3), ballot(), 1)).unwrap();
    assert_eq!(out, vec![to(LEADER, Message::Decision(pid(ME), 1, cmd("a")))]);
}

#[test]
fn without_acceptors_nothing_is_ever_settled() {
    let mut s = Scout::new(pid(ME), pid(LEADER), ballot());
    assert_eq!(s.start(&cluster(&[], &[])), vec![]);
    assert_eq!(s.phase(), Phase::Waiting);
    assert_eq!(s.exec(Message::P1B(pid(1), ballot(), Accepted::new())), Ok(vec![]));
    assert_eq!(s.phase(), Phase::Waiting);
}

#[test]
fn scout_merges_per_slot_maximum() {
    let x = pid(1);
    let y = pid(2);
    let mut s = Scout::new(pid(ME), pid(LEADER), ballot());
    s.start(&cluster(&[1, 2, 3], &[]));
    let mut from_x = Accepted::new();
    from_x.insert(7, PValue::new(BallotNumber::new(1, x), 7, cmd("old")));
    from_x.insert(8, PValue::new(BallotNumber::new(1, x), 8, cmd("eight")));
    let mut from_y = Accepted::new();
    from_y.insert(7, PValue::new(BallotNumber::new(2, y), 7, cmd("new")));
    assert_eq!(s.exec(Message::P1B(x, ballot(), from_x)), Ok(vec![]));
    let out = s.exec(Message::P1B(y, ballot(), from_y)).unwrap();
    assert_eq!(out.len(), 1);
    assert_eq!(out[0].to, pid(LEADER));
    match &out[0].message {
        Message::Adopt(from, b, values) => {
            assert_eq!(*from, pid(ME));
            assert_eq!(*b, ballot());
            assert_eq!(values.get(7).unwrap().ballot, BallotNumber::new(2, y));
            assert_eq!(values.get(7).unwrap().command, cmd("new"));
            assert_eq!(values.get(8).unwrap().command, cmd("eight"));
            assert_eq!(values.len(), 2);
        }
        other => panic!("not an adoption: {:?}", other),
    }
}

#[test]
fn scout_reports_another_ballot_as_preemption() {
    let mut s = Scout::new(pid(ME), pid(LEADER), ballot());
    s.start(&cluster(&[1, 2, 3], &[]));
    let other = BallotNumber::new(9, pid(11));
    let out = s.exec(Message::P1B(pid(1), other, Accepted::new())).unwrap();
    assert_eq!(out, vec![to(LEADER, Message::Preempt(pid(ME), other))]);
    assert_eq!(s.phase(), Phase::Finished);
}

#[test]
fn commander_decides_after_a_majority_and_tells_replicas_then_leader() {
    let mut c = Commander::new(&pid(ME), &pid(LEADER), ballot(), 4, cmd("a"));
    let out = c.start(&cluster(&[1, 2, 3], &[20, 21]));
    let ask = Message::P2A(pid(ME), ballot(), 4, cmd("a"));
    assert_eq!(out, vec![to(1, ask.clone()), to(2, ask.clone()), to(3, ask.clone())]);
    assert_eq!(c.exec(Message::P2B(pid(2), ballot(), 4)), Ok(vec![]));
    assert_eq!(c.exec(Message::P2B(pid(2), ballot(), 4)), Ok(vec![]));
    let out = c.exec(Message::P2B(pid(1), ballot(), 4)).unwrap();
    let decision = Message::Decision(pid(ME), 4, cmd("a"));
    assert_eq!(out, vec![to(20, decision.clone()), to(21, decision.clone()), to(LEADER, decision)]);
    assert_eq!(c.phase(), Phase::Finished);
    assert_eq!(c.exec(Message::P2B(pid(3), ballot(), 4)), Ok(vec![]));
}

#[test]
fn commander_reports_another_ballot_as_preemption() {
    let mut c = Commander::new(&pid(ME), &pid(LEADER), ballot(), 4, cmd("a"));
    c.start(&cluster(&[1, 2, 3], &[20]));
    assert_eq!(c.exec(Message::P2B(pid(1), ballot(), 4)), Ok(vec![]));
    let other = BallotNumber::new(9, pid(11));
    let out = c.exec(Message::P2B(pid(2), other, 4)).unwrap();
    assert_eq!(out, vec![to(LEADER, Message::Preempt(pid(ME), other))]);
    assert_eq!(c.phase(), Phase::Finished);
}

#[test]
fn waiting_workers_refuse_other_messages() {
    let mut s = Scout::new(pid(ME), pid(LEADER), ballot());
    s.start(&cluster(&[1, 2, 3], &[]));
    assert_eq!(s.exec(Message::P2B(pid(1), ballot(), 1)), Err(ProtocolError::UnexpectedMessage));
    assert_eq!(s.exec(Message::Request(pid(1), cmd("x"))), Err(ProtocolError::UnexpectedMessage));
    assert_eq!(s.phase(), Phase::Waiting);
    let mut c = Commander::new(&pid(ME), &pid(LEADER), ballot(), 4, cmd("a"));
    c.start(&cluster(&[1, 2, 3], &[20]));
    assert_eq!(
        c.exec(Message::P1B(pid(1), ballot(), Accepted::new())),
        Err(ProtocolError::UnexpectedMessage)
    );
    assert_eq!(c.phase(), Phase::Waiting);
    // before they start, workers ignore what comes
    let mut s = Scout::new(pid(ME), pid(LEADER), ballot());
    assert_eq!(s.exec(Message::Request(pid(1), cmd("x"))), Ok(vec![]));
    assert_eq!(s.phase(), Phase::Created);
}

#[test]
fn a_directory_that_lists_an_acceptor_thrice_counts_three() {
    let mut s = Scout::new(pid(ME), pid(LEADER), ballot());
    let out = s.start(&cluster(&[1, 1, 1], &[]));
    // one process owes an answer, three are listed: fewer than half are owing
    assert_eq!(out.len(), 4);
    assert_eq!(out[3], to(LEADER, Message::Adopt(pid(ME), ballot(), Accepted::new())));
    assert_eq!(s.phase(), Phase::Finished);
}
