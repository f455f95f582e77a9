use paxos::acceptor::Acceptor;
use paxos::ds::Accepted;
use paxos::env::{IpAddr, ProcessId};
use paxos::message::{Message, ProtocolError, WireMessage};
use paxos::pval::{BallotNumber, Command, PValue};

fn pid(id: u32) -> ProcessId {
    ProcessId::new(IpAddr::v4(127, 0, 0, 1), 6060, id)
}

fn cmd(name: &str) -> Command {
    Command::new_from_str(pid(100), name.to_string(), format!("op-{}", name))
}

#[test]
fn new_acceptor_promises_its_first_ballot() {
    let a = Acceptor::new(pid(1));
    assert_eq!(a.me(), pid(1));
    assert_eq!(a.ballot(), BallotNumber::first(pid(1)));
    assert_eq!(a.accepted().len(), 0);
}

#[test]
fn p1a_raises_the_promise_and_is_answered_with_the_asked_ballot() {
    let mut a = Acceptor::new(pid(1));
    let scout = pid(50);
    let high = BallotNumber::new(5, pid(10));
    let reply = a.exec(Message::P1A(scout, high)).unwrap();
    assert_eq!(reply, WireMessage::new(scout, Message::P1B(pid(1), high, Accepted::new())));
    assert_eq!(a.ballot(), high);

    let low = BallotNumber::new(3, pid(11));
    let reply = a.exec(Message::P1A(pid(51), low)).unwrap();
    assert_eq!(reply, WireMessage::new(pid(51), Message::P1B(pid(1), low, Accepted::new())));
    assert_eq!(a.ballot(), high);
}

#[test]
fn p2a_at_or_above_the_promise_is_accepted() {
    let mut a = Acceptor::new(pid(1));
    let b = BallotNumber::new(2, pid(10));
    a.exec(Message::P1A(pid(50), b)).unwrap();
    let reply = a.exec(Message::P2A(pid(60), b, 7, cmd("x"))).unwrap();
    assert_eq!(reply, WireMessage::new(pid(60), Message::P2B(pid(1), b, 7)));
    assert_eq!(a.accepted().get(7), Some(&PValue::new(b, 7, cmd("x"))));

    let higher = BallotNumber::new(3, pid(10));
    let reply = a.exec(Message::P2A(pid(61), higher, 7, cmd("y"))).unwrap();
    assert_eq!(reply, WireMessage::new(pid(61), Message::P2B(pid(1), higher, 7)));
    assert_eq!(a.ballot(), higher);
    assert_eq!(a.accepted().get(7), Some(&PValue::new(higher, 7, cmd("y"))));
    assert_eq!(a.accepted().len(), 1);
}

#[test]
fn p2a_below_the_promise_is_answered_with_the_promise() {
    let mut a = Acceptor::new(pid(1));
    let promised = BallotNumber::new(5, pid(10));
    a.exec(Message::P1A(pid(50), promised)).unwrap();
    let low = BallotNumber::new(3, pid(11));
    let reply = a.exec(Message::P2A(pid(60), low, 1, cmd("x"))).unwrap();
    assert_eq!(reply, WireMessage::new(pid(60), Message::P2B(pid(1), promised, 1)));
    assert_eq!(a.ballot(), promised);
    assert_eq!(a.accepted().get(1), None);
    assert_eq!(a.accepted().len(), 0);
}

#[test]
fn p1b_carries_what_was_accepted() {
    let mut a = Acceptor::new(pid(1));
    let b = BallotNumber::new(1, pid(10));
    a.exec(Message::P2A(pid(60), b, 1, cmd("x"))).unwrap();
    a.exec(Message::P2A(pid(61), b, 2, cmd("y"))).unwrap();
    let asked = BallotNumber::new(2, pid(11));
    let reply = a.exec(Message::P1A(pid(50), asked)).unwrap();
    let mut expected = Accepted::new();
    expected.insert(2, PValue::new(b, 2, cmd("y")));
    expected.insert(1, PValue::new(b, 1, cmd("x")));
    assert_eq!(reply, WireMessage::new(pid(50), Message::P1B(pid(1), asked, expected)));
}

#[test]
fn replaying_a_p2a_changes_nothing() {
    let mut a = Acceptor::new(pid(1));
    let b = BallotNumber::new(1, pid(10));
    let first = a.exec(Message::P2A(pid(60), b, 4, cmd("x"))).unwrap();
    let ballot = a.ballot();
    let accepted = a.accepted().clone();
    let second = a.exec(Message::P2A(pid(60), b, 4, cmd("x"))).unwrap();
    assert_eq!(first, second);
    assert_eq!(a.ballot(), ballot);
    assert_eq!(*a.accepted(), accepted);
}

#[test]
fn acceptor_refuses_other_messages() {
    let mut a = Acceptor::new(pid(1));
    let b = BallotNumber::new(1, pid(10));
    a.exec(Message::P2A(pid(60), b, 4, cmd("x"))).unwrap();
    let others = vec![
        Message::P1B(pid(2), b, Accepted::new()),
        Message::P2B(pid(2), b, 1),
        Message::Preempt(pid(2), b),
        Message::Adopt(pid(2), b, Accepted::new()),
        Message::Decision(pid(2), 1, cmd("x")),
        Message::Request(pid(2), cmd("x")),
        Message::Propose(pid(2), 1, cmd("x")),
    ];
    for m in others {
        assert_eq!(a.exec(m), Err(ProtocolError::UnexpectedMessage));
        assert_eq!(a.ballot(), b);
        assert_eq!(a.accepted().len(), 1);
    }
}

#[test]
fn the_promise_stays_above_every_rejected_request() {
    let mut a = Acceptor::new(pid(1));
    let b5 = BallotNumber::new(5, pid(10));
    let b7 = BallotNumber::new(7, pid(10));
    let rejected = [BallotNumber::new(3, pid(11)), BallotNumber::new(4, pid(12)), b5];
    a.exec(Message::P2A(pid(60), b5, 1, cmd("x"))).unwrap();
    for b in &rejected[..2] {
        let reply = a.exec(Message::P2A(pid(61), *b, 1, cmd("y"))).unwrap();
        assert_eq!(reply.message, Message::P2B(pid(1), b5, 1));
        assert!(*b < a.ballot());
        // slot 1 was accepted under the promise that turned the request down
        assert!(*b <= a.accepted().get(1).unwrap().ballot);
    }
    a.exec(Message::P1A(pid(50), b7)).unwrap();
    let reply = a.exec(Message::P2A(pid(62), b5, 2, cmd("z"))).unwrap();
    assert_eq!(reply.message, Message::P2B(pid(1), b7, 2));
    for b in &rejected {
        assert!(*b < a.ballot());
        assert!(*b <= a.accepted().get(1).unwrap().ballot);
    }
    // nothing was ever accepted for slot 2, whatever was turned down for it
    assert_eq!(a.accepted().get(2), None);
}
