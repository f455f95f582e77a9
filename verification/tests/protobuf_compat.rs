use paxos::env::{IpAddr, ProcessId};
use paxos::message::{Message, WireMessage};
use paxos::pval::{BallotNumber, Command};
use protobuf::rt::WireType;
use protobuf::{CodedInputStream, CodedOutputStream};

fn pid_with(os: &mut CodedOutputStream, field: u32, p: &ProcessId) {
    let mut body = vec![];
    {
        let mut inner = CodedOutputStream::vec(&mut body);
        match p.ip {
            IpAddr::V4(a) => inner.write_uint32(1, a).unwrap(),
            IpAddr::V6(a) => {
                inner.write_uint64(2, (a >> 64) as u64).unwrap();
                inner.write_uint64(3, a as u64).unwrap();
            }
        }
        inner.write_uint32(4, p.port).unwrap();
        inner.write_uint32(5, p.id).unwrap();
        inner.flush().unwrap();
    }
    os.write_bytes(field, &body).unwrap();
}

#[test]
fn what_the_library_writes_protobuf_reads() {
    let to = ProcessId::new(IpAddr::v4(127, 0, 0, 1), 6060, 3);
    let from = ProcessId::new(IpAddr::v4(10, 1, 2, 3), 70000, 4);
    let w = WireMessage::new(to, Message::Preempt(from, BallotNumber::new(300, from)));
    let bytes = w.encode();

    let mut is = CodedInputStream::from_bytes(&bytes);
    assert_eq!(is.read_raw_tag_or_eof().unwrap(), Some((1 << 3) | 2));
    let receiver = is.read_bytes().unwrap();
    assert_eq!(is.read_raw_tag_or_eof().unwrap(), Some((2 << 3) | 2));
    let message = is.read_bytes().unwrap();
    assert_eq!(is.read_raw_tag_or_eof().unwrap(), None);

    let mut is = CodedInputStream::from_bytes(&receiver);
    assert_eq!(is.read_raw_tag_or_eof().unwrap(), Some(1 << 3));
    assert_eq!(is.read_uint32().unwrap(), 0x7f00_0001);
    assert_eq!(is.read_raw_tag_or_eof().unwrap(), Some(4 << 3));
    assert_eq!(is.read_uint32().unwrap(), 6060);
    assert_eq!(is.read_raw_tag_or_eof().unwrap(), Some(5 << 3));
    assert_eq!(is.read_uint32().unwrap(), 3);
    assert_eq!(is.read_raw_tag_or_eof().unwrap(), None);

    let mut is = CodedInputStream::from_bytes(&message);
    assert_eq!(is.read_raw_tag_or_eof().unwrap(), Some(1 << 3));
    assert_eq!(is.read_uint64().unwrap(), 4);
    assert_eq!(is.read_raw_tag_or_eof().unwrap(), Some((2 << 3) | 2));
    assert_eq!(is.read_bytes().unwrap(), from.encode());
    assert_eq!(is.read_raw_tag_or_eof().unwrap(), Some((3 << 3) | 2));
    let ballot = is.read_bytes().unwrap();
    assert_eq!(is.read_raw_tag_or_eof().unwrap(), None);

    let mut is = CodedInputStream::from_bytes(&ballot);
    assert_eq!(is.read_raw_tag_or_eof().unwrap(), Some(1 << 3));
    assert_eq!(is.read_uint64().unwrap(), 300);
    assert_eq!(is.read_raw_tag_or_eof().unwrap(), Some((2 << 3) | 2));
    assert_eq!(is.read_bytes().unwrap(), from.encode());
    assert_eq!(is.read_raw_tag_or_eof().unwrap(), None);
    assert_eq!(WireType::Varint as u32, 0);
    assert_eq!(WireType::LengthDelimited as u32, 2);
}

#[test]
fn what_protobuf_writes_the_library_reads() {
    let to = ProcessId::new(IpAddr::V6((7u128 << 64) + 9), 1, 2);
    let client = ProcessId::new(IpAddr::v4(192, 168, 0, 1), 6060, 100);

    let mut command = vec![];
    {
        let mut os = CodedOutputStream::vec(&mut command);
        pid_with(&mut os, 1, &client);
        os.write_bytes(2, b"Request:1").unwrap();
        os.write_bytes(3, b"Op:1").unwrap();
        os.flush().unwrap();
    }
    let mut message = vec![];
    {
        let mut os = CodedOutputStream::vec(&mut message);
        os.write_uint64(1, 8).unwrap();
        pid_with(&mut os, 2, &client);
        os.write_uint64(4, 1 << 40).unwrap();
        os.write_bytes(5, &command).unwrap();
        os.flush().unwrap();
    }
    let mut envelope = vec![];
    {
        let mut os = CodedOutputStream::vec(&mut envelope);
        pid_with(&mut os, 1, &to);
        os.write_bytes(2, &message).unwrap();
        os.flush().unwrap();
    }
    let expected = WireMessage::new(
        to,
        Message::Propose(
            client,
            1 << 40,
            Command::new_from_str(client, "Request:1".to_string(), "Op:1".to_string()),
        ),
    );
    assert_eq!(WireMessage::decode(&envelope), Some(expected.clone()));
    assert_eq!(expected.encode(), envelope);
}
