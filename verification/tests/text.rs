use paxos::ds::Accepted;
use paxos::env::{IpAddr, ProcessId};
use paxos::message::Message;
use paxos::pval::{BallotNumber, Command, PValue};
use paxos::text::{decimal_string, INCOMING_PORT};

fn pid(id: u32) -> ProcessId {
    ProcessId::new(IpAddr::v4(127, 0, 0, 1), 6060, id)
}

#[test]
fn numbers_in_decimal() {
    assert_eq!(decimal_string(0), "0");
    assert_eq!(decimal_string(9), "9");
    assert_eq!(decimal_string(10), "10");
    assert_eq!(decimal_string(6060), "6060");
    assert_eq!(decimal_string(u64::MAX), "18446744073709551615");
    for n in [1u64, 42, 100, 999, 1000, 1 << 40] {
        assert_eq!(decimal_string(n), n.to_string());
    }
}

#[test]
fn identifiers_in_text() {
    assert_eq!(pid(3).to_text(), "ProcessID(ip:127.0.0.1, port:6060, id:3)");
    assert_eq!(
        ProcessId::new(IpAddr::v4(255, 0, 10, 99), 0, u32::MAX).to_text(),
        "ProcessID(ip:255.0.10.99, port:0, id:4294967295)"
    );
    assert_eq!(
        ProcessId::new(IpAddr::V6(0x2001_0db8_0000_0000_0000_ff00_0042_8329), 1, 2).to_text(),
        "ProcessID(ip:2001:db8:0:0:0:ff00:42:8329, port:1, id:2)"
    );
    assert_eq!(
        ProcessId::new(IpAddr::V6(u128::MAX), 1, 2).to_text(),
        "ProcessID(ip:ffff:ffff:ffff:ffff:ffff:ffff:ffff:ffff, port:1, id:2)"
    );
    assert_eq!(ProcessId::new(IpAddr::V6(0), 1, 2).to_text(), "ProcessID(ip:0:0:0:0:0:0:0:0, port:1, id:2)");
}

#[test]
fn the_incoming_end_point() {
    assert_eq!(INCOMING_PORT, 6060);
    assert_eq!(pid(3).addr_sender(), "tcp://127.0.0.1:6060");
    assert_eq!(ProcessId::new(IpAddr::v4(10, 1, 2, 3), 99, 3).addr_sender(), "tcp://10.1.2.3:6060");
}

#[test]
fn values_in_text() {
    let b = BallotNumber::new(5, pid(1));
    assert_eq!(b.to_text(), "BallotNumber(round:5, ProcessID(ip:127.0.0.1, port:6060, id:1))");
    let c = Command::new_from_str(pid(9), "Request:1".to_string(), "Op:1".to_string());
    assert_eq!(c.to_text(), "Command(ProcessID(ip:127.0.0.1, port:6060, id:9),Request:1,Op:1)");
    let raw = Command::new(pid(9), vec![0xff, 0x00, 0x1a], vec![]);
    assert_eq!(raw.to_text(), "Command(ProcessID(ip:127.0.0.1, port:6060, id:9),0xff001a,)");
    let wide = Command::new_from_str(pid(9), "żółw".to_string(), "日本".to_string());
    assert_eq!(wide.to_text(), "Command(ProcessID(ip:127.0.0.1, port:6060, id:9),żółw,日本)");
    let p = PValue::new(b, 7, c.clone());
    assert_eq!(p.to_text(), format!("PValue({},7,{})", b.to_text(), c.to_text()));
}

#[test]
fn messages_in_text() {
    let id = pid(2);
    let b = BallotNumber::new(1, pid(1));
    let c = Command::new_from_str(pid(9), "r".to_string(), "o".to_string());
    let (i, bt, ct) = (id.to_text(), b.to_text(), c.to_text());
    let mut a = Accepted::new();
    assert_eq!(Message::P1B(id, b, a.clone()).to_text(), format!("P1B({}, {} ,{{}})", i, bt));
    a.insert(12, PValue::new(b, 12, c.clone()));
    a.insert(3, PValue::new(b, 3, c.clone()));
    let p3 = PValue::new(b, 3, c.clone()).to_text();
    let p12 = PValue::new(b, 12, c.clone()).to_text();
    let at = format!("{{3: {}, 12: {}}}", p3, p12);
    assert_eq!(Message::P1A(id, b).to_text(), format!("P1A({}, {})", i, bt));
    assert_eq!(Message::P1B(id, b, a.clone()).to_text(), format!("P1B({}, {} ,{})", i, bt, at));
    assert_eq!(Message::P2A(id, b, 4, c.clone()).to_text(), format!("P2A({}, {}, 4, {})", i, bt, ct));
    assert_eq!(Message::P2B(id, b, 4).to_text(), format!("P2B({}, {}, 4)", i, bt));
    assert_eq!(Message::Preempt(id, b).to_text(), format!("PREEMPT({}, {})", i, bt));
    assert_eq!(Message::Adopt(id, b, a).to_text(), format!("ADOPT({}, {}, {})", i, bt, at));
    assert_eq!(Message::Decision(id, 4, c.clone()).to_text(), format!("DECISION({}, 4, {})", i, ct));
    assert_eq!(Message::Request(id, c.clone()).to_text(), format!("REQUEST({}, {})", i, ct));
    assert_eq!(Message::Propose(id, 4, c).to_text(), format!("PROPOSE({}, 4, {})", i, ct));
}
