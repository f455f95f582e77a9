use paxos::env::{IpAddr, ProcessId};
use paxos::pval::{BallotNumber, Command, PValue};

fn client() -> ProcessId {
    ProcessId::new(IpAddr::v4(127, 0, 0, 1), 6060, 9)
}

#[test]
fn command_from_strings_keeps_the_text() {
    let c = Command::new_from_str(client(), format!("Request:{}", 1), format!("Op:{}", 1));
    assert_eq!(c.client, client());
    assert_eq!(c.req_id_str(), "Request:1");
    assert_eq!(c.op_str(), "Op:1");
    assert_eq!(c.try_req_id_str(), Some("Request:1"));
    assert_eq!(c.try_op_str(), Some("Op:1"));
    assert_eq!(c.req_id.as_ref(), b"Request:1");
    assert_eq!(c.operation.as_ref(), b"Op:1");
}

#[test]
fn command_from_octets_keeps_the_octets() {
    let c = Command::new(client(), vec![0xff, 0x00, 0x80], vec![]);
    assert_eq!(c.req_id.as_ref(), &[0xff, 0x00, 0x80]);
    assert_eq!(c.operation.len(), 0);
    assert_eq!(c.try_req_id_str(), None);
    assert_eq!(c.try_op_str(), Some(""));
}

#[test]
fn multi_byte_text_survives() {
    let c = Command::new_from_str(client(), "żółw".to_string(), "日本".to_string());
    assert_eq!(c.req_id_str(), "żółw");
    assert_eq!(c.op_str(), "日本");
    assert_eq!(c.req_id.len(), 7);
}

#[test]
fn command_equality_is_structural() {
    let a = Command::new_from_str(client(), "r1".to_string(), "op1".to_string());
    let b = Command::new(client(), b"r1".to_vec(), b"op1".to_vec());
    let other_op = Command::new_from_str(client(), "r1".to_string(), "op2".to_string());
    let other_req = Command::new_from_str(client(), "r2".to_string(), "op1".to_string());
    let other_client = Command::new_from_str(
        ProcessId::new(IpAddr::v4(127, 0, 0, 1), 6060, 10),
        "r1".to_string(),
        "op1".to_string(),
    );
    assert_eq!(a, b);
    assert_ne!(a, other_op);
    assert_ne!(a, other_req);
    assert_ne!(a, other_client);
    assert_eq!(a.clone(), a);
    assert_ne!(other_op.clone(), a);
}

#[test]
fn pvalue_holds_its_parts() {
    let c = Command::new_from_str(client(), "r1".to_string(), "op1".to_string());
    let b = BallotNumber::new(3, client());
    let p = PValue::new(b, 7, c.clone());
    assert_eq!(p.ballot, b);
    assert_eq!(p.slot, 7);
    assert_eq!(p.command, c);
    assert_eq!(p.clone(), p);
    assert_ne!(PValue::new(b, 8, c.clone()), p);
}
