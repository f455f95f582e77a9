use paxos::ds::Accepted;
use paxos::env::{IpAddr, ProcessId};
use paxos::message::{Message, WireMessage};
use paxos::pval::{BallotNumber, Command, PValue};
use paxos::wire::{decode_fields, encode_fields, read_varint, write_varint, Field, Value};

fn v4(id: u32) -> ProcessId {
    ProcessId::new(IpAddr::v4(127, 0, 0, 1), 6060, id)
}

fn v6(id: u32) -> ProcessId {
    ProcessId::new(IpAddr::V6(0x2001_0db8_0000_0000_0000_0000_0000_0001), 6060, id)
}

fn cmd(client: ProcessId, req: &[u8], op: &[u8]) -> Command {
    Command::new(client, req.to_vec(), op.to_vec())
}

fn record(entries: &[(u64, u64, &[u8])]) -> Accepted {
    let mut a = Accepted::new();
    for (slot, round, req) in entries {
        a.insert(*slot, PValue::new(BallotNumber::new(*round, v4(1)), *slot, cmd(v6(7), req, b"op")));
    }
    a
}

fn all_kinds() -> Vec<Message> {
    let b = BallotNumber::new(3, v4(10));
    let b6 = BallotNumber::new(u64::MAX, v6(11));
    vec![
        Message::P1A(v4(1), b),
        Message::P1A(v6(1), b6),
        Message::P1B(v4(2), b, Accepted::new()),
        Message::P1B(v6(2), b6, record(&[(7, 1, b"r7"), (1, 2, b""), (u64::MAX, 0, b"last")])),
        Message::P2A(v4(3), b, 5, cmd(v4(100), b"r1", b"op1")),
        Message::P2A(v6(3), b6, 0, cmd(v6(100), b"", b"")),
        Message::P2B(v4(4), b, 5),
        Message::P2B(v6(4), b6, u64::MAX),
        Message::Preempt(v4(5), b),
        Message::Preempt(v6(5), b6),
        Message::Adopt(v4(6), b, Accepted::new()),
        Message::Adopt(v6(6), b6, record(&[(3, 9, "żółw".as_bytes()), (2, 9, &[0u8, 255, 128])])),
        Message::Decision(v4(7), 1, cmd(v4(100), b"r1", b"op1")),
        Message::Decision(v6(7), u64::MAX, cmd(v6(100), &[0xff; 300], b"")),
        Message::Request(v4(8), cmd(v4(100), b"Request:1", b"Op:1")),
        Message::Request(v6(8), cmd(v6(100), b"", &[7u8; 1000])),
        Message::Propose(v4(9), 12, cmd(v4(100), b"r1", b"op1")),
        Message::Propose(v6(9), 128, cmd(v6(100), b"x", b"y")),
    ]
}

#[test]
fn every_kind_of_message_survives_the_wire() {
    for m in all_kinds() {
        let bytes = m.encode();
        assert_eq!(Message::decode(&bytes), Some(m.clone()));
        let w = WireMessage::new(v6(77), m.clone());
        let bytes = w.encode();
        assert_eq!(WireMessage::decode(&bytes), Some(w));
    }
}

#[test]
fn request_round_trip_keeps_the_sender() {
    let id = v4(0);
    let msg = Message::Request(
        id,
        Command::new_from_str(id, format!("Request:1",), format!("Op:1")),
    );
    let sent = WireMessage::new(id, msg.clone()).encode();
    let received = WireMessage::decode(&sent).unwrap();
    assert_eq!(received.to, id);
    assert_eq!(received.message.id(), msg.id());
    assert_eq!(received.message, msg);
}

#[test]
fn numbers_are_written_in_base_128() {
    let cases: Vec<(u64, Vec<u8>)> = vec![
        (0, vec![0x00]),
        (1, vec![0x01]),
        (127, vec![0x7f]),
        (128, vec![0x80, 0x01]),
        (300, vec![0xac, 0x02]),
        (16383, vec![0xff, 0x7f]),
        (16384, vec![0x80, 0x80, 0x01]),
        (u64::MAX, vec![0xff, 0xff, 0xff, 0xff, 0xff, 0xff, 0xff, 0xff, 0xff, 0x01]),
        (1 << 63, vec![0x80, 0x80, 0x80, 0x80, 0x80, 0x80, 0x80, 0x80, 0x80, 0x01]),
    ];
    for (v, bytes) in cases {
        let mut out = vec![0xaa];
        write_varint(&mut out, v);
        assert_eq!(out[0], 0xaa);
        assert_eq!(&out[1..], &bytes[..]);
        assert_eq!(read_varint(&out, 1), Some((v, out.len())));
        let mut padded = bytes.clone();
        padded.push(0x55);
        assert_eq!(read_varint(&padded, 0), Some((v, bytes.len())));
    }
}

#[test]
fn malformed_numbers_are_not_read() {
    assert_eq!(read_varint(&[], 0), None);
    assert_eq!(read_varint(&[0x80], 0), None);
    assert_eq!(read_varint(&[0x01], 1), None);
    assert_eq!(read_varint(&[0xff, 0xff], 0), None);
    // ten octets with the high bit: the number does not end in time
    assert_eq!(read_varint(&[0x80; 11], 0), None);
    assert_eq!(
        read_varint(&[0x80, 0x80, 0x80, 0x80, 0x80, 0x80, 0x80, 0x80, 0x80, 0x80, 0x01], 0),
        None
    );
    // the tenth octet may only carry the top bit of 64
    assert_eq!(
        read_varint(&[0xff, 0xff, 0xff, 0xff, 0xff, 0xff, 0xff, 0xff, 0xff, 0x02], 0),
        None
    );
    // leading zero groups are read
    assert_eq!(read_varint(&[0x81, 0x80, 0x00], 0), Some((1, 3)));
}

#[test]
fn an_identifier_has_exact_octets() {
    assert_eq!(
        ProcessId::new(IpAddr::v4(127, 0, 0, 1), 6060, 3).encode(),
        vec![0x08, 0x81, 0x80, 0x80, 0xf8, 0x07, 0x20, 0xac, 0x2f, 0x28, 0x03]
    );
    assert_eq!(
        ProcessId::new(IpAddr::V6(1), 0, 0).encode(),
        vec![0x10, 0x00, 0x18, 0x01, 0x20, 0x00, 0x28, 0x00]
    );
    assert_eq!(
        ProcessId::decode(&[0x10, 0x02, 0x18, 0x01, 0x20, 0x00, 0x28, 0x05]),
        Some(ProcessId::new(IpAddr::V6((2u128 << 64) + 1), 0, 5))
    );
}

#[test]
fn a_message_has_exact_octets() {
    let id = ProcessId::new(IpAddr::V6(1), 0, 0);
    let pid_bytes = vec![0x10, 0x00, 0x18, 0x01, 0x20, 0x00, 0x28, 0x00];
    let mut ballot = vec![0x08, 0x05, 0x12, 0x08];
    ballot.extend(&pid_bytes);
    let mut expected = vec![0x08, 0x04, 0x12, 0x08];
    expected.extend(&pid_bytes);
    expected.extend([0x1a, ballot.len() as u8]);
    expected.extend(&ballot);
    assert_eq!(Message::Preempt(id, BallotNumber::new(5, id)).encode(), expected);

    let mut command = vec![0x0a, 0x08];
    command.extend(&pid_bytes);
    command.extend([0x12, 0x02, b'r', b'1', 0x1a, 0x00]);
    let mut expected = vec![0x08, 0x06, 0x12, 0x08];
    expected.extend(&pid_bytes);
    expected.extend([0x20, 0x09, 0x2a, command.len() as u8]);
    expected.extend(&command);
    assert_eq!(Message::Decision(id, 9, cmd(id, b"r1", b"")).encode(), expected);
}

#[test]
fn entries_are_written_in_ascending_slot_order() {
    let a = record(&[(7, 1, b"r7"), (1, 2, b"r1"), (300, 3, b"r300")]);
    let m = Message::Adopt(v4(1), BallotNumber::new(1, v4(1)), a.clone());
    let fields = decode_fields(&m.encode()).unwrap();
    assert_eq!(fields.len(), 6);
    let mut slots = vec![];
    for f in &fields[3..] {
        assert_eq!(f.number, 6);
        match &f.value {
            Value::Bytes(b) => {
                let inner = decode_fields(b).unwrap();
                assert_eq!(inner.len(), 2);
                assert_eq!(inner[0].number, 1);
                match (&inner[0].value, &inner[1].value) {
                    (Value::Varint(s), Value::Bytes(p)) => {
                        assert_eq!(PValue::decode(p).as_ref(), a.get(*s));
                        slots.push(*s);
                    }
                    _ => panic!("entry of another shape"),
                }
            }
            _ => panic!("entry of another shape"),
        }
    }
    assert_eq!(slots, vec![1, 7, 300]);
}

#[test]
fn entries_are_read_in_any_order_and_the_higher_ballot_stays() {
    let low = PValue::new(BallotNumber::new(1, v4(1)), 7, cmd(v4(9), b"low", b""));
    let high = PValue::new(BallotNumber::new(2, v4(2)), 7, cmd(v4(9), b"high", b""));
    let other = PValue::new(BallotNumber::new(1, v4(1)), 3, cmd(v4(9), b"other", b""));
    let entry = |slot: u64, p: &PValue| Field {
        number: 6,
        value: Value::Bytes(encode_fields(&vec![
            Field { number: 1, value: Value::Varint(slot) },
            Field { number: 2, value: Value::Bytes(p.encode()) },
        ])),
    };
    let b = BallotNumber::new(2, v4(2));
    let fields = vec![
        Field { number: 1, value: Value::Varint(1) },
        Field { number: 2, value: Value::Bytes(v4(5).encode()) },
        Field { number: 3, value: Value::Bytes(b.encode()) },
        entry(7, &high),
        entry(3, &other),
        entry(7, &low),
    ];
    let mut expected = Accepted::new();
    expected.insert(3, other.clone());
    expected.insert(7, high.clone());
    assert_eq!(Message::decode(&encode_fields(&fields)), Some(Message::P1B(v4(5), b, expected)));
}

#[test]
fn what_no_writer_writes_is_not_read() {
    let good = Message::P2B(v4(4), BallotNumber::new(3, v4(10)), 5).encode();
    assert!(Message::decode(&good).is_some());
    // cut short
    for n in 0..good.len() {
        assert_eq!(Message::decode(&good[..n]), None);
    }
    // trailing octets
    let mut long = good.clone();
    long.push(0x00);
    assert_eq!(Message::decode(&long), None);
    // unknown kind
    let mut fields = decode_fields(&good).unwrap();
    fields[0] = Field { number: 1, value: Value::Varint(9) };
    assert_eq!(Message::decode(&encode_fields(&fields)), None);
    // a field too many
    let mut fields = decode_fields(&good).unwrap();
    fields.push(Field { number: 5, value: Value::Bytes(cmd(v4(1), b"", b"").encode()) });
    assert_eq!(Message::decode(&encode_fields(&fields)), None);
    // a field missing
    let mut fields = decode_fields(&good).unwrap();
    fields.pop();
    assert_eq!(Message::decode(&encode_fields(&fields)), None);
    // fields out of order
    let mut fields = decode_fields(&good).unwrap();
    fields.swap(2, 3);
    assert_eq!(Message::decode(&encode_fields(&fields)), None);
    // a port that does not fit 32 bits
    assert_eq!(
        ProcessId::decode(&encode_fields(&vec![
            Field { number: 1, value: Value::Varint(1) },
            Field { number: 4, value: Value::Varint(1 << 32) },
            Field { number: 5, value: Value::Varint(1) },
        ])),
        None
    );
    // the empty input spells no envelope
    assert_eq!(WireMessage::decode(&[]), None);
    assert_eq!(WireMessage::decode(&[0xff]), None);
}

#[test]
fn fields_round_trip() {
    let fields = vec![
        Field { number: 0, value: Value::Varint(0) },
        Field { number: u32::MAX, value: Value::Bytes(vec![]) },
        Field { number: 16, value: Value::Bytes(vec![1, 2, 3]) },
        Field { number: 1, value: Value::Varint(u64::MAX) },
    ];
    let bytes = encode_fields(&fields);
    assert_eq!(decode_fields(&bytes), Some(fields));
    assert_eq!(decode_fields(&[]), Some(vec![]));
    // wire types other than number and octets
    assert_eq!(decode_fields(&[0x09, 0, 0, 0, 0, 0, 0, 0, 0]), None);
    assert_eq!(decode_fields(&[0x0d, 0, 0, 0, 0]), None);
    // octets that end early
    assert_eq!(decode_fields(&[0x0a, 0x02, 0x01]), None);
}
