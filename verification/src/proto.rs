//! The wire form, upper layer: how identifiers, ballots, commands, p-values
//! and messages are laid out in numbered fields.
//!
//! ```text
//! ProcessId    1: v4 address | 2: v6 address, high half  3: low half
//!              4: port  5: instance
//! BallotNumber 1: round  2: owner (ProcessId)
//! Command      1: client (ProcessId)  2: request name  3: operation
//! PValue       1: ballot (BallotNumber)  2: slot  3: command (Command)
//! Message      1: kind  2: sender (ProcessId)  3: ballot  4: slot
//!              5: command  6: accepted entry, once per slot, ascending
//! entry        1: slot  2: p-value (PValue)
//! WireMessage  1: receiver (ProcessId)  2: message (Message)
//! ```
//!
//! A message carries the fields of its kind and no others, in the order of
//! their numbers. Reading is strict: what no writer here would have written
//! is not read, except that numbers may be written with leading zero groups
//! and the entries of a record may come in any order.

use crate::ds::{accepted_insert, ascending, lemma_ascending, Accepted};
use crate::env::{IpAddr, ProcessId};
use crate::message::{Message, MessageView, WireMessage, WireMessageView};
use crate::pval::{bytes_as_slice, BallotNumber, Command, CommandView, PValue, PValueView,
    SlotNumber};
use crate::wire::{all_fit, copy_range, decode_fields, encode_fields, field_views, fields_bytes,
    lemma_fields_round_trip, lemma_varint_len, parse_fields, Field, FieldView, Value, ValueView};
use vstd::prelude::*;

verus! {

/// A field that holds a number.
pub open spec fn number_field(number: u32, v: u64) -> FieldView {
    FieldView { number, value: ValueView::Varint(v) }
}

/// A field that holds octets.
pub open spec fn octets_field(number: u32, b: Seq<u8>) -> FieldView {
    FieldView { number, value: ValueView::Bytes(b) }
}

/// The number in field `i`, if that field has the number `number` and holds
/// a number.
pub open spec fn number_at(fields: Seq<FieldView>, i: int, number: u32) -> Option<u64> {
    if 0 <= i < fields.len() && fields[i].number == number {
        match fields[i].value {
            ValueView::Varint(v) => Some(v),
            ValueView::Bytes(_) => None,
        }
    } else {
        None
    }
}

/// The octets in field `i`, if that field has the number `number` and holds
/// octets.
pub open spec fn octets_at(fields: Seq<FieldView>, i: int, number: u32) -> Option<Seq<u8>> {
    if 0 <= i < fields.len() && fields[i].number == number {
        match fields[i].value {
            ValueView::Varint(_) => None,
            ValueView::Bytes(b) => Some(b),
        }
    } else {
        None
    }
}

fn get_number(fields: &Vec<Field>, i: usize, number: u32) -> (r: Option<u64>)
    ensures
        r == number_at(field_views(fields@), i as int, number),
{
    if i < fields.len() && fields[i].number == number {
        match &fields[i].value {
            Value::Varint(v) => Some(*v),
            Value::Bytes(_) => None,
        }
    } else {
        None
    }
}

fn get_octets(fields: &Vec<Field>, i: usize, number: u32) -> (r: Option<&Vec<u8>>)
    ensures
        match r {
            Some(b) => octets_at(field_views(fields@), i as int, number) == Some(b@),
            None => octets_at(field_views(fields@), i as int, number) is None,
        },
{
    if i < fields.len() && fields[i].number == number {
        match &fields[i].value {
            Value::Varint(_) => None,
            Value::Bytes(b) => Some(b),
        }
    } else {
        None
    }
}

/// A number that fits 32 bits.
pub open spec fn narrow(v: Option<u64>) -> Option<u32> {
    match v {
        Some(v) => if v <= u32::MAX {
            Some(v as u32)
        } else {
            None
        },
        None => None,
    }
}

fn narrowed(v: Option<u64>) -> (r: Option<u32>)
    ensures
        r == narrow(v),
{
    match v {
        Some(v) => if v <= u32::MAX as u64 {
            Some(v as u32)
        } else {
            None
        },
        None => None,
    }
}

/// The fields of an identifier.
pub open spec fn pid_fields(p: ProcessId) -> Seq<FieldView> {
    match p.ip {
        IpAddr::V4(a) => seq![
            number_field(1, a as u64),
            number_field(4, p.port as u64),
            number_field(5, p.id as u64),
        ],
        IpAddr::V6(a) => seq![
            number_field(2, (a / 0x1_0000_0000_0000_0000) as u64),
            number_field(3, (a % 0x1_0000_0000_0000_0000) as u64),
            number_field(4, p.port as u64),
            number_field(5, p.id as u64),
        ],
    }
}

/// The identifier that a list of fields spells.
pub open spec fn pid_of_fields(fields: Seq<FieldView>) -> Option<ProcessId> {
    if fields.len() == 3 {
        match (
            narrow(number_at(fields, 0, 1)),
            narrow(number_at(fields, 1, 4)),
            narrow(number_at(fields, 2, 5)),
        ) {
            (Some(a), Some(port), Some(id)) => Some(ProcessId { ip: IpAddr::V4(a), port, id }),
            _ => None,
        }
    } else if fields.len() == 4 {
        match (
            number_at(fields, 0, 2),
            number_at(fields, 1, 3),
            narrow(number_at(fields, 2, 4)),
            narrow(number_at(fields, 3, 5)),
        ) {
            (Some(high), Some(low), Some(port), Some(id)) => Some(
                ProcessId {
                    ip: IpAddr::V6((high as u128 * 0x1_0000_0000_0000_0000 + low as u128) as u128),
                    port,
                    id,
                },
            ),
            _ => None,
        }
    } else {
        None
    }
}

/// How an identifier is written.
pub open spec fn pid_bytes(p: ProcessId) -> Seq<u8> {
    fields_bytes(pid_fields(p))
}

/// The identifier that `b` spells.
pub open spec fn parse_pid(b: Seq<u8>) -> Option<ProcessId> {
    match parse_fields(b) {
        Some(fields) => pid_of_fields(fields),
        None => None,
    }
}

/// Reading gives back a written identifier.
pub proof fn lemma_pid_round_trip(p: ProcessId)
    ensures
        parse_pid(pid_bytes(p)) == Some(p),
{
    lemma_fields_round_trip(pid_fields(p));
}

impl ProcessId {
    /// Writes the identifier. Reading the result gives it back.
    pub fn encode(&self) -> (out: Vec<u8>)
        ensures
            out@ == pid_bytes(*self),
            parse_pid(out@) == Some(*self),
    {
        let mut fields: Vec<Field> = Vec::new();
        match self.ip {
            IpAddr::V4(a) => {
                fields.push(Field { number: 1, value: Value::Varint(a as u64) });
            },
            IpAddr::V6(a) => {
                fields.push(
                    Field {
                        number: 2,
                        value: Value::Varint((a / 0x1_0000_0000_0000_0000) as u64),
                    },
                );
                fields.push(
                    Field {
                        number: 3,
                        value: Value::Varint((a % 0x1_0000_0000_0000_0000) as u64),
                    },
                );
            },
        }
        fields.push(Field { number: 4, value: Value::Varint(self.port as u64) });
        fields.push(Field { number: 5, value: Value::Varint(self.id as u64) });
        assert(field_views(fields@) =~= pid_fields(*self));
        proof {
            lemma_pid_round_trip(*self);
        }
        encode_fields(&fields)
    }

    /// Reads an identifier.
    pub fn decode(b: &[u8]) -> (r: Option<ProcessId>)
        ensures
            r == parse_pid(b@),
    {
        let fields = match decode_fields(b) {
            Some(fields) => fields,
            None => {
                return None;
            },
        };
        if fields.len() == 3 {
            let a = narrowed(get_number(&fields, 0, 1));
            let port = narrowed(get_number(&fields, 1, 4));
            let id = narrowed(get_number(&fields, 2, 5));
            match (a, port, id) {
                (Some(a), Some(port), Some(id)) => Some(ProcessId { ip: IpAddr::V4(a), port, id }),
                _ => None,
            }
        } else if fields.len() == 4 {
            let high = get_number(&fields, 0, 2);
            let low = get_number(&fields, 1, 3);
            let port = narrowed(get_number(&fields, 2, 4));
            let id = narrowed(get_number(&fields, 3, 5));
            match (high, low, port, id) {
                (Some(high), Some(low), Some(port), Some(id)) => Some(
                    ProcessId {
                        ip: IpAddr::V6(high as u128 * 0x1_0000_0000_0000_0000 + low as u128),
                        port,
                        id,
                    },
                ),
                _ => None,
            }
        } else {
            None
        }
    }
}

/// A field that holds a number takes at most twenty octets.
pub proof fn lemma_number_field_len(number: u32, v: u64)
    ensures
        number_field(number, v).bytes().len() <= 20,
{
    lemma_varint_len(number_field(number, v).key());
    lemma_varint_len(v as nat);
}

/// A field that holds octets takes at most twenty octets more than they.
pub proof fn lemma_octets_field_len(number: u32, b: Seq<u8>)
    requires
        b.len() <= u64::MAX,
    ensures
        octets_field(number, b).bytes().len() <= 20 + b.len(),
{
    lemma_varint_len(octets_field(number, b).key());
    lemma_varint_len(b.len());
}

/// A written identifier is short.
pub proof fn lemma_pid_bytes_len(p: ProcessId)
    ensures
        pid_bytes(p).len() <= 80,
{
    reveal_with_fuel(fields_bytes, 5);
    let fields = pid_fields(p);
    assert forall|i: int| 0 <= i < fields.len() implies (#[trigger] fields[i]).bytes().len()
        <= 20 by {
        match fields[i].value {
            ValueView::Varint(v) => lemma_number_field_len(fields[i].number, v),
            ValueView::Bytes(_) => {},
        }
    }
    assert(fields.skip(1)[0] == fields[1]);
    assert(fields.skip(1).skip(1)[0] == fields[2]);
    if fields.len() == 4 {
        assert(fields.skip(1).skip(1).skip(1)[0] == fields[3]);
    }
}

/// The fields of a ballot.
pub open spec fn ballot_fields(b: BallotNumber) -> Seq<FieldView> {
    seq![number_field(1, b.round), octets_field(2, pid_bytes(b.process_id))]
}

/// The ballot that a list of fields spells.
pub open spec fn ballot_of_fields(fields: Seq<FieldView>) -> Option<BallotNumber> {
    if fields.len() == 2 {
        match (number_at(fields, 0, 1), octets_at(fields, 1, 2)) {
            (Some(round), Some(owner)) => match parse_pid(owner) {
                Some(process_id) => Some(BallotNumber { round, process_id }),
                None => None,
            },
            _ => None,
        }
    } else {
        None
    }
}

/// How a ballot is written.
pub open spec fn ballot_bytes(b: BallotNumber) -> Seq<u8> {
    fields_bytes(ballot_fields(b))
}

/// The ballot that `b` spells.
pub open spec fn parse_ballot(b: Seq<u8>) -> Option<BallotNumber> {
    match parse_fields(b) {
        Some(fields) => ballot_of_fields(fields),
        None => None,
    }
}

/// Reading gives back a written ballot; a written ballot is short.
pub proof fn lemma_ballot_round_trip(b: BallotNumber)
    ensures
        parse_ballot(ballot_bytes(b)) == Some(b),
        ballot_bytes(b).len() <= 120,
{
    lemma_pid_bytes_len(b.process_id);
    lemma_pid_round_trip(b.process_id);
    lemma_fields_round_trip(ballot_fields(b));
    reveal_with_fuel(fields_bytes, 3);
    lemma_number_field_len(1, b.round);
    lemma_octets_field_len(2, pid_bytes(b.process_id));
    assert(ballot_fields(b).skip(1)[0] == ballot_fields(b)[1]);
}

impl BallotNumber {
    /// Writes the ballot. Reading the result gives it back.
    pub fn encode(&self) -> (out: Vec<u8>)
        ensures
            out@ == ballot_bytes(*self),
            parse_ballot(out@) == Some(*self),
    {
        let mut fields: Vec<Field> = Vec::new();
        fields.push(Field { number: 1, value: Value::Varint(self.round) });
        fields.push(Field { number: 2, value: Value::Bytes(self.process_id.encode()) });
        assert(field_views(fields@) =~= ballot_fields(*self));
        proof {
            lemma_ballot_round_trip(*self);
        }
        encode_fields(&fields)
    }

    /// Reads a ballot.
    pub fn decode(b: &[u8]) -> (r: Option<BallotNumber>)
        ensures
            r == parse_ballot(b@),
    {
        let fields = match decode_fields(b) {
            Some(fields) => fields,
            None => {
                return None;
            },
        };
        if fields.len() != 2 {
            return None;
        }
        let round = get_number(&fields, 0, 1);
        let owner = get_octets(&fields, 1, 2);
        match (round, owner) {
            (Some(round), Some(owner)) => match ProcessId::decode(owner.as_slice()) {
                Some(process_id) => Some(BallotNumber { round, process_id }),
                None => None,
            },
            _ => None,
        }
    }
}

/// A command can be written if the counts of its octets fit 64 bits.
pub open spec fn command_fits(c: CommandView) -> bool {
    c.req_id.len() <= u64::MAX && c.operation.len() <= u64::MAX
}

/// The fields of a command.
pub open spec fn command_fields(c: CommandView) -> Seq<FieldView> {
    seq![
        octets_field(1, pid_bytes(c.client)),
        octets_field(2, c.req_id),
        octets_field(3, c.operation),
    ]
}

/// The command that a list of fields spells.
pub open spec fn command_of_fields(fields: Seq<FieldView>) -> Option<CommandView> {
    if fields.len() == 3 {
        match (octets_at(fields, 0, 1), octets_at(fields, 1, 2), octets_at(fields, 2, 3)) {
            (Some(client), Some(req_id), Some(operation)) => match parse_pid(client) {
                Some(client) => Some(CommandView { client, req_id, operation }),
                None => None,
            },
            _ => None,
        }
    } else {
        None
    }
}

/// How a command is written.
pub open spec fn command_bytes(c: CommandView) -> Seq<u8> {
    fields_bytes(command_fields(c))
}

/// The command that `b` spells.
pub open spec fn parse_command(b: Seq<u8>) -> Option<CommandView> {
    match parse_fields(b) {
        Some(fields) => command_of_fields(fields),
        None => None,
    }
}

/// Reading gives back a written command.
pub proof fn lemma_command_round_trip(c: CommandView)
    requires
        command_fits(c),
    ensures
        parse_command(command_bytes(c)) == Some(c),
{
    lemma_pid_bytes_len(c.client);
    lemma_pid_round_trip(c.client);
    lemma_fields_round_trip(command_fields(c));
}

impl Command {
    /// Writes the command. Reading the result gives it back.
    pub fn encode(&self) -> (out: Vec<u8>)
        ensures
            out@ == command_bytes(self@),
            command_fits(self@),
            parse_command(out@) == Some(self@),
    {
        let req_id = bytes_as_slice(&self.req_id);
        let operation = bytes_as_slice(&self.operation);
        let mut fields: Vec<Field> = Vec::new();
        fields.push(Field { number: 1, value: Value::Bytes(self.client.encode()) });
        fields.push(Field { number: 2, value: Value::Bytes(copy_range(req_id, 0, req_id.len())) });
        fields.push(
            Field { number: 3, value: Value::Bytes(copy_range(operation, 0, operation.len())) },
        );
        proof {
            assert(req_id@.subrange(0, req_id@.len() as int) =~= req_id@);
            assert(operation@.subrange(0, operation@.len() as int) =~= operation@);
            assert(field_views(fields@) =~= command_fields(self@));
            lemma_command_round_trip(self@);
        }
        encode_fields(&fields)
    }

    /// Reads a command.
    pub fn decode(b: &[u8]) -> (r: Option<Command>)
        ensures
            match r {
                Some(c) => parse_command(b@) == Some(c@),
                None => parse_command(b@) is None,
            },
    {
        let fields = match decode_fields(b) {
            Some(fields) => fields,
            None => {
                return None;
            },
        };
        if fields.len() != 3 {
            return None;
        }
        let client = get_octets(&fields, 0, 1);
        let req_id = get_octets(&fields, 1, 2);
        let operation = get_octets(&fields, 2, 3);
        match (client, req_id, operation) {
            (Some(client), Some(req_id), Some(operation)) => match ProcessId::decode(
                client.as_slice(),
            ) {
                Some(client) => {
                    let r = copy_range(req_id.as_slice(), 0, req_id.len());
                    let o = copy_range(operation.as_slice(), 0, operation.len());
                    assert(r@ =~= req_id@ && o@ =~= operation@);
                    Some(Command::new(client, r, o))
                },
                None => None,
            },
            _ => None,
        }
    }
}

/// A p-value can be written if its command can, and the written command is
/// not longer than 64 bits can count.
pub open spec fn pvalue_fits(p: PValueView) -> bool {
    command_fits(p.command) && command_bytes(p.command).len() <= u64::MAX
}

/// The fields of a p-value.
pub open spec fn pvalue_fields(p: PValueView) -> Seq<FieldView> {
    seq![
        octets_field(1, ballot_bytes(p.ballot)),
        number_field(2, p.slot),
        octets_field(3, command_bytes(p.command)),
    ]
}

/// The p-value that a list of fields spells.
pub open spec fn pvalue_of_fields(fields: Seq<FieldView>) -> Option<PValueView> {
    if fields.len() == 3 {
        match (octets_at(fields, 0, 1), number_at(fields, 1, 2), octets_at(fields, 2, 3)) {
            (Some(ballot), Some(slot), Some(command)) => match (
                parse_ballot(ballot),
                parse_command(command),
            ) {
                (Some(ballot), Some(command)) => Some(PValueView { ballot, slot, command }),
                _ => None,
            },
            _ => None,
        }
    } else {
        None
    }
}

/// How a p-value is written.
pub open spec fn pvalue_bytes(p: PValueView) -> Seq<u8> {
    fields_bytes(pvalue_fields(p))
}

/// The p-value that `b` spells.
pub open spec fn parse_pvalue(b: Seq<u8>) -> Option<PValueView> {
    match parse_fields(b) {
        Some(fields) => pvalue_of_fields(fields),
        None => None,
    }
}

/// Reading gives back a written p-value.
pub proof fn lemma_pvalue_round_trip(p: PValueView)
    requires
        pvalue_fits(p),
    ensures
        parse_pvalue(pvalue_bytes(p)) == Some(p),
{
    lemma_ballot_round_trip(p.ballot);
    lemma_command_round_trip(p.command);
    lemma_fields_round_trip(pvalue_fields(p));
}

impl PValue {
    /// Writes the p-value. Reading the result gives it back.
    pub fn encode(&self) -> (out: Vec<u8>)
        ensures
            out@ == pvalue_bytes(self@),
            pvalue_fits(self@),
            parse_pvalue(out@) == Some(self@),
    {
        let mut fields: Vec<Field> = Vec::new();
        fields.push(Field { number: 1, value: Value::Bytes(self.ballot.encode()) });
        fields.push(Field { number: 2, value: Value::Varint(self.slot) });
        let command = self.command.encode();
        fields.push(Field { number: 3, value: Value::Bytes(command) });
        proof {
            assert(field_views(fields@) =~= pvalue_fields(self@));
        }
        let out = encode_fields(&fields);
        proof {
            lemma_pvalue_round_trip(self@);
        }
        out
    }

    /// Reads a p-value.
    pub fn decode(b: &[u8]) -> (r: Option<PValue>)
        ensures
            match r {
                Some(p) => parse_pvalue(b@) == Some(p@),
                None => parse_pvalue(b@) is None,
            },
    {
        let fields = match decode_fields(b) {
            Some(fields) => fields,
            None => {
                return None;
            },
        };
        if fields.len() != 3 {
            return None;
        }
        let ballot = get_octets(&fields, 0, 1);
        let slot = get_number(&fields, 1, 2);
        let command = get_octets(&fields, 2, 3);
        match (ballot, slot, command) {
            (Some(ballot), Some(slot), Some(command)) => match (
                BallotNumber::decode(ballot.as_slice()),
                Command::decode(command.as_slice()),
            ) {
                (Some(ballot), Some(command)) => Some(PValue::new(ballot, slot, command)),
                _ => None,
            },
            _ => None,
        }
    }
}

/// The two fields inside an entry of a record.
pub open spec fn entry_fields(slot: SlotNumber, p: PValueView) -> Seq<FieldView> {
    seq![number_field(1, slot), octets_field(2, pvalue_bytes(p))]
}

/// The field of a message that holds one entry of a record.
pub open spec fn entry_field(slot: SlotNumber, p: PValueView) -> FieldView {
    octets_field(6, fields_bytes(entry_fields(slot, p)))
}

/// An entry can be written if its p-value can, and neither the written
/// p-value nor the written entry is longer than 64 bits can count.
pub open spec fn entry_fits(slot: SlotNumber, p: PValueView) -> bool {
    &&& pvalue_fits(p)
    &&& pvalue_bytes(p).len() <= u64::MAX
    &&& fields_bytes(entry_fields(slot, p)).len() <= u64::MAX
}

/// The entry that a field of a message spells.
pub open spec fn entry_of_field(f: FieldView) -> Option<(SlotNumber, PValueView)> {
    match octets_at(seq![f], 0, 6) {
        Some(b) => match parse_fields(b) {
            Some(inner) => if inner.len() == 2 {
                match (number_at(inner, 0, 1), octets_at(inner, 1, 2)) {
                    (Some(slot), Some(p)) => match parse_pvalue(p) {
                        Some(p) => Some((slot, p)),
                        None => None,
                    },
                    _ => None,
                }
            } else {
                None
            },
            None => None,
        },
        None => None,
    }
}

/// The fields that hold a record: one entry per slot, slots ascending.
pub open spec fn accepted_fields(a: Map<SlotNumber, PValueView>) -> Seq<FieldView> {
    ascending(a.dom()).map_values(|s: SlotNumber| entry_field(s, a[s]))
}

/// A record can be written if each of its entries can.
pub open spec fn accepted_fits(a: Map<SlotNumber, PValueView>) -> bool {
    forall|s: SlotNumber| #[trigger] a.contains_key(s) ==> entry_fits(s, a[s])
}

/// The record that a list of entry fields spells: the entries are offered
/// to the record one by one, in their order.
pub open spec fn accepted_of_fields(fields: Seq<FieldView>) -> Option<Map<SlotNumber, PValueView>>
    decreases fields.len(),
{
    if fields.len() == 0 {
        Some(Map::empty())
    } else {
        match (accepted_of_fields(fields.drop_last()), entry_of_field(fields.last())) {
            (Some(a), Some((slot, p))) => Some(accepted_insert(a, slot, p)),
            _ => None,
        }
    }
}

/// Reading gives back a written entry.
pub proof fn lemma_entry_round_trip(slot: SlotNumber, p: PValueView)
    requires
        entry_fits(slot, p),
    ensures
        entry_of_field(entry_field(slot, p)) == Some((slot, p)),
        entry_field(slot, p).fits(),
{
    lemma_pvalue_round_trip(p);
    lemma_fields_round_trip(entry_fields(slot, p));
}

/// The part of `a` on the slots that `keys` lists.
pub open spec fn listed_part(a: Map<SlotNumber, PValueView>, keys: Seq<SlotNumber>) -> Map<
    SlotNumber,
    PValueView,
> {
    Map::new(|s: SlotNumber| a.contains_key(s) && keys.contains(s), |s: SlotNumber| a[s])
}

/// Reading the first `n` entry fields of a written record gives the part
/// of the record on its first `n` slots.
pub proof fn lemma_accepted_prefix(a: Map<SlotNumber, PValueView>, n: nat)
    requires
        accepted_fits(a),
        n <= ascending(a.dom()).len(),
    ensures
        accepted_of_fields(accepted_fields(a).take(n as int)) == Some(
            listed_part(a, ascending(a.dom()).take(n as int)),
        ),
    decreases n,
{
    let keys = ascending(a.dom());
    let fields = accepted_fields(a);
    lemma_ascending(a.dom());
    if n == 0 {
        assert(listed_part(a, keys.take(0)) =~= Map::empty());
    } else {
        lemma_accepted_prefix(a, (n - 1) as nat);
        let k = keys[n - 1];
        assert(keys.contains(k));
        lemma_entry_round_trip(k, a[k]);
        let part = fields.take(n as int);
        assert(part.drop_last() =~= fields.take(n - 1));
        assert(part.last() == entry_field(k, a[k]));
        let done = keys.take(n - 1);
        let grown = keys.take(n as int);
        let before = listed_part(a, done);
        assert(!before.contains_key(k)) by {
            if done.contains(k) {
                let j = choose|j: int| 0 <= j < done.len() && done[j] == k;
                assert(keys[j] == keys[n - 1]);
            }
        }
        assert forall|s: SlotNumber| grown.contains(s) <==> done.contains(s) || s == k by {
            if grown.contains(s) {
                let j = choose|j: int| 0 <= j < grown.len() && grown[j] == s;
                if j < n - 1 {
                    assert(done[j] == s);
                }
            }
            if done.contains(s) {
                let j = choose|j: int| 0 <= j < done.len() && done[j] == s;
                assert(grown[j] == s);
            }
            if s == k {
                assert(grown[n - 1] == s);
            }
        }
        assert(accepted_insert(before, k, a[k]) =~= listed_part(a, grown));
    }
}

/// Reading gives back a written record.
pub proof fn lemma_accepted_round_trip(a: Map<SlotNumber, PValueView>)
    requires
        accepted_fits(a),
    ensures
        accepted_of_fields(accepted_fields(a)) == Some(a),
        all_fit(accepted_fields(a)),
{
    let keys = ascending(a.dom());
    lemma_ascending(a.dom());
    lemma_accepted_prefix(a, keys.len());
    assert(accepted_fields(a).take(keys.len() as int) =~= accepted_fields(a));
    assert(keys.take(keys.len() as int) =~= keys);
    assert(listed_part(a, keys) =~= a);
    assert forall|i: int| 0 <= i < accepted_fields(a).len() implies (#[trigger] accepted_fields(
        a,
    )[i]).fits() by {
        assert(keys.contains(keys[i]));
        lemma_entry_round_trip(keys[i], a[keys[i]]);
    }
}

/// The number that stands for a kind of message.
pub open spec fn kind_code(m: MessageView) -> u64 {
    match m {
        MessageView::P1A(_, _) => 0,
        MessageView::P1B(_, _, _) => 1,
        MessageView::P2A(_, _, _, _) => 2,
        MessageView::P2B(_, _, _) => 3,
        MessageView::Preempt(_, _) => 4,
        MessageView::Adopt(_, _, _) => 5,
        MessageView::Decision(_, _, _) => 6,
        MessageView::Request(_, _) => 7,
        MessageView::Propose(_, _, _) => 8,
    }
}

/// The field every message starts with: its kind.
pub open spec fn kind_field(m: MessageView) -> FieldView {
    number_field(1, kind_code(m))
}

/// The second field of every message: its sender.
pub open spec fn sender_field(m: MessageView) -> FieldView {
    octets_field(2, pid_bytes(m.id()))
}

/// The fields of a message.
pub open spec fn message_fields(m: MessageView) -> Seq<FieldView> {
    match m {
        MessageView::P1A(_, b) => seq![
            kind_field(m),
            sender_field(m),
            octets_field(3, ballot_bytes(b)),
        ],
        MessageView::P1B(_, b, a) => seq![
            kind_field(m),
            sender_field(m),
            octets_field(3, ballot_bytes(b)),
        ] + accepted_fields(a),
        MessageView::P2A(_, b, s, c) => seq![
            kind_field(m),
            sender_field(m),
            octets_field(3, ballot_bytes(b)),
            number_field(4, s),
            octets_field(5, command_bytes(c)),
        ],
        MessageView::P2B(_, b, s) => seq![
            kind_field(m),
            sender_field(m),
            octets_field(3, ballot_bytes(b)),
            number_field(4, s),
        ],
        MessageView::Preempt(_, b) => seq![
            kind_field(m),
            sender_field(m),
            octets_field(3, ballot_bytes(b)),
        ],
        MessageView::Adopt(_, b, a) => seq![
            kind_field(m),
            sender_field(m),
            octets_field(3, ballot_bytes(b)),
        ] + accepted_fields(a),
        MessageView::Decision(_, s, c) => seq![
            kind_field(m),
            sender_field(m),
            number_field(4, s),
            octets_field(5, command_bytes(c)),
        ],
        MessageView::Request(_, c) => seq![
            kind_field(m),
            sender_field(m),
            octets_field(5, command_bytes(c)),
        ],
        MessageView::Propose(_, s, c) => seq![
            kind_field(m),
            sender_field(m),
            number_field(4, s),
            octets_field(5, command_bytes(c)),
        ],
    }
}

/// A written command that is not longer than 64 bits can count.
pub open spec fn command_nests(c: CommandView) -> bool {
    command_fits(c) && command_bytes(c).len() <= u64::MAX
}

/// A message can be written if what it carries can.
pub open spec fn message_fits(m: MessageView) -> bool {
    match m {
        MessageView::P1A(_, _) => true,
        MessageView::P1B(_, _, a) => accepted_fits(a),
        MessageView::P2A(_, _, _, c) => command_nests(c),
        MessageView::P2B(_, _, _) => true,
        MessageView::Preempt(_, _) => true,
        MessageView::Adopt(_, _, a) => accepted_fits(a),
        MessageView::Decision(_, _, c) => command_nests(c),
        MessageView::Request(_, c) => command_nests(c),
        MessageView::Propose(_, _, c) => command_nests(c),
    }
}

/// The ballot in field `i`, if that field has the number `number`.
pub open spec fn ballot_at(fields: Seq<FieldView>, i: int, number: u32) -> Option<BallotNumber> {
    match octets_at(fields, i, number) {
        Some(b) => parse_ballot(b),
        None => None,
    }
}

/// The command in field `i`, if that field has the number `number`.
pub open spec fn command_at(fields: Seq<FieldView>, i: int, number: u32) -> Option<CommandView> {
    match octets_at(fields, i, number) {
        Some(b) => parse_command(b),
        None => None,
    }
}

/// The identifier in field `i`, if that field has the number `number`.
pub open spec fn pid_at(fields: Seq<FieldView>, i: int, number: u32) -> Option<ProcessId> {
    match octets_at(fields, i, number) {
        Some(b) => parse_pid(b),
        None => None,
    }
}

/// The message that a list of fields spells.
pub open spec fn message_of_fields(fields: Seq<FieldView>) -> Option<MessageView> {
    match (number_at(fields, 0, 1), pid_at(fields, 1, 2)) {
        (Some(kind), Some(id)) => if kind == 0 || kind == 4 {
            match ballot_at(fields, 2, 3) {
                Some(b) => if fields.len() != 3 {
                    None
                } else if kind == 0 {
                    Some(MessageView::P1A(id, b))
                } else {
                    Some(MessageView::Preempt(id, b))
                },
                None => None,
            }
        } else if kind == 1 || kind == 5 {
            match ballot_at(fields, 2, 3) {
                Some(b) => match accepted_of_fields(fields.skip(3)) {
                    Some(a) => if kind == 1 {
                        Some(MessageView::P1B(id, b, a))
                    } else {
                        Some(MessageView::Adopt(id, b, a))
                    },
                    None => None,
                },
                None => None,
            }
        } else if kind == 2 {
            match (ballot_at(fields, 2, 3), number_at(fields, 3, 4), command_at(fields, 4, 5)) {
                (Some(b), Some(s), Some(c)) => if fields.len() == 5 {
                    Some(MessageView::P2A(id, b, s, c))
                } else {
                    None
                },
                _ => None,
            }
        } else if kind == 3 {
            match (ballot_at(fields, 2, 3), number_at(fields, 3, 4)) {
                (Some(b), Some(s)) => if fields.len() == 4 {
                    Some(MessageView::P2B(id, b, s))
                } else {
                    None
                },
                _ => None,
            }
        } else if kind == 6 || kind == 8 {
            match (number_at(fields, 2, 4), command_at(fields, 3, 5)) {
                (Some(s), Some(c)) => if fields.len() != 4 {
                    None
                } else if kind == 6 {
                    Some(MessageView::Decision(id, s, c))
                } else {
                    Some(MessageView::Propose(id, s, c))
                },
                _ => None,
            }
        } else if kind == 7 {
            match command_at(fields, 2, 5) {
                Some(c) => if fields.len() == 3 {
                    Some(MessageView::Request(id, c))
                } else {
                    None
                },
                None => None,
            }
        } else {
            None
        },
        _ => None,
    }
}

/// How a message is written.
pub open spec fn message_bytes(m: MessageView) -> Seq<u8> {
    fields_bytes(message_fields(m))
}

/// The message that `b` spells.
pub open spec fn parse_message(b: Seq<u8>) -> Option<MessageView> {
    match parse_fields(b) {
        Some(fields) => message_of_fields(fields),
        None => None,
    }
}

/// The fields of a written message that carries a record spell the
/// message, and each can be written.
proof fn lemma_fields_with_record(m: MessageView)
    requires
        m is P1B || m is Adopt,
        message_fits(m),
    ensures
        message_of_fields(message_fields(m)) == Some(m),
        all_fit(message_fields(m)),
{
    let fields = message_fields(m);
    let (b, a) = match m {
        MessageView::P1B(_, b, a) => (b, a),
        MessageView::Adopt(_, b, a) => (b, a),
        _ => arbitrary(),
    };
    lemma_pid_bytes_len(m.id());
    lemma_pid_round_trip(m.id());
    lemma_ballot_round_trip(b);
    lemma_accepted_round_trip(a);
    assert(fields.skip(3) =~= accepted_fields(a));
    assert(fields[0] == kind_field(m));
    assert(fields[1] == sender_field(m));
    assert(fields[2] == octets_field(3, ballot_bytes(b)));
    assert forall|i: int| 0 <= i < fields.len() implies (#[trigger] fields[i]).fits() by {
        if i >= 3 {
            assert(fields[i] == accepted_fields(a)[i - 3]);
        }
    }
    assert(number_at(fields, 0, 1) == Some(kind_code(m)));
    assert(pid_at(fields, 1, 2) == Some(m.id()));
    assert(ballot_at(fields, 2, 3) == Some(b));
}

/// The fields of a written message that carries no record spell the
/// message, and each can be written.
proof fn lemma_fields_without_record(m: MessageView)
    requires
        !(m is P1B || m is Adopt),
        message_fits(m),
    ensures
        message_of_fields(message_fields(m)) == Some(m),
        all_fit(message_fields(m)),
{
    let fields = message_fields(m);
    lemma_pid_bytes_len(m.id());
    lemma_pid_round_trip(m.id());
    assert(number_at(fields, 0, 1) == Some(kind_code(m)));
    assert(pid_at(fields, 1, 2) == Some(m.id()));
    match m {
        MessageView::P1A(_, b) => {
            lemma_ballot_round_trip(b);
            assert(ballot_at(fields, 2, 3) == Some(b));
        },
        MessageView::P2A(_, b, s, c) => {
            lemma_ballot_round_trip(b);
            lemma_command_round_trip(c);
            assert(ballot_at(fields, 2, 3) == Some(b));
            assert(number_at(fields, 3, 4) == Some(s));
            assert(command_at(fields, 4, 5) == Some(c));
        },
        MessageView::P2B(_, b, s) => {
            lemma_ballot_round_trip(b);
            assert(ballot_at(fields, 2, 3) == Some(b));
            assert(number_at(fields, 3, 4) == Some(s));
        },
        MessageView::Preempt(_, b) => {
            lemma_ballot_round_trip(b);
            assert(ballot_at(fields, 2, 3) == Some(b));
        },
        MessageView::Decision(_, s, c) => {
            lemma_command_round_trip(c);
            assert(number_at(fields, 2, 4) == Some(s));
            assert(command_at(fields, 3, 5) == Some(c));
        },
        MessageView::Request(_, c) => {
            lemma_command_round_trip(c);
            assert(command_at(fields, 2, 5) == Some(c));
        },
        MessageView::Propose(_, s, c) => {
            lemma_command_round_trip(c);
            assert(number_at(fields, 2, 4) == Some(s));
            assert(command_at(fields, 3, 5) == Some(c));
        },
        _ => {},
    }
}

/// The fields of a written message spell the message, and each can be
/// written.
pub proof fn lemma_message_fields(m: MessageView)
    requires
        message_fits(m),
    ensures
        message_of_fields(message_fields(m)) == Some(m),
        all_fit(message_fields(m)),
{
    if m is P1B || m is Adopt {
        lemma_fields_with_record(m);
    } else {
        lemma_fields_without_record(m);
    }
}

/// Reading gives back a written message.
pub proof fn lemma_message_round_trip(m: MessageView)
    requires
        message_fits(m),
    ensures
        parse_message(message_bytes(m)) == Some(m),
{
    lemma_message_fields(m);
    lemma_fields_round_trip(message_fields(m));
}

/// A field that holds `body`.
fn nested(number: u32, body: Vec<u8>) -> (f: Field)
    ensures
        f@ == octets_field(number, body@),
{
    Field { number, value: Value::Bytes(body) }
}

/// A field that holds `v`.
fn plain(number: u32, v: u64) -> (f: Field)
    ensures
        f@ == number_field(number, v),
{
    Field { number, value: Value::Varint(v) }
}

/// The field that holds the entry of `p` for `slot`.
fn entry(slot: SlotNumber, p: &PValue) -> (f: Field)
    ensures
        f@ == entry_field(slot, p@),
        entry_fits(slot, p@),
{
    let mut inner: Vec<Field> = Vec::new();
    inner.push(plain(1, slot));
    let written = p.encode();
    assert(written.len() <= usize::MAX);
    inner.push(nested(2, written));
    assert(field_views(inner@) =~= entry_fields(slot, p@));
    let body = encode_fields(&inner);
    assert(body.len() <= usize::MAX);
    nested(6, body)
}

impl Accepted {
    /// Appends the entry fields of this record to `fields`.
    fn write_entries(&self, fields: &mut Vec<Field>)
        ensures
            field_views(final(fields)@) == field_views(old(fields)@) + accepted_fields(self@),
            accepted_fits(self@),
    {
        let slots = self.slots();
        let ghost wanted = accepted_fields(self@);
        let ghost start = field_views(fields@);
        proof {
            lemma_ascending(self@.dom());
            assert forall|j: int| 0 <= j < slots@.len() implies self@.contains_key(
                #[trigger] slots@[j],
            ) by {
                assert(slots@.contains(slots@[j]));
            }
        }
        let mut i: usize = 0;
        assert(field_views(fields@) =~= start + wanted.take(0));
        while i < slots.len()
            invariant
                i <= slots.len(),
                slots@ == ascending(self@.dom()),
                wanted == accepted_fields(self@),
                forall|j: int| 0 <= j < slots@.len() ==> self@.contains_key(#[trigger] slots@[j]),
                field_views(fields@) == start + wanted.take(i as int),
                forall|j: int| 0 <= j < i ==> entry_fits(slots@[j], self@[#[trigger] slots@[j]]),
            decreases slots.len() - i,
        {
            let slot = slots[i];
            let ghost before = field_views(fields@);
            match self.get(slot) {
                Some(p) => {
                    fields.push(entry(slot, p));
                    assert(field_views(fields@) =~= before.push(wanted[i as int]));
                    assert(wanted.take(i + 1) =~= wanted.take(i as int).push(wanted[i as int]));
                    assert(before.push(wanted[i as int]) =~= start + wanted.take(i + 1));
                },
                None => {},
            }
            i += 1;
        }
        proof {
            assert(wanted.take(i as int) =~= wanted);
            assert forall|s: SlotNumber| #[trigger] self@.contains_key(s) implies entry_fits(
                s,
                self@[s],
            ) by {
                assert(slots@.contains(s));
                let j = choose|j: int| 0 <= j < slots@.len() && slots@[j] == s;
            }
        }
    }

    /// Reads a record from the fields of `fields` from `from` on.
    fn read_entries(fields: &Vec<Field>, from: usize) -> (r: Option<Accepted>)
        requires
            from <= fields.len(),
        ensures
            match r {
                Some(a) => accepted_of_fields(field_views(fields@).skip(from as int)) == Some(a@),
                None => accepted_of_fields(field_views(fields@).skip(from as int)) is None,
            },
    {
        let ghost entries = field_views(fields@).skip(from as int);
        let mut a = Accepted::new();
        let mut i: usize = from;
        assert(entries.take(0) =~= Seq::<FieldView>::empty());
        while i < fields.len()
            invariant
                from <= i <= fields.len(),
                entries == field_views(fields@).skip(from as int),
                accepted_of_fields(entries.take(i - from)) == Some(a@),
            decreases fields.len() - i,
        {
            let ghost grown = entries.take(i - from + 1);
            proof {
                assert(grown.drop_last() =~= entries.take(i - from));
                assert(grown.last() == fields@[i as int]@);
                assert(seq![fields@[i as int]@][0] == fields@[i as int]@);
            }
            let entry = match get_octets(fields, i, 6) {
                Some(body) => match decode_fields(body.as_slice()) {
                    Some(inner) => if inner.len() == 2 {
                        match (get_number(&inner, 0, 1), get_octets(&inner, 1, 2)) {
                            (Some(slot), Some(p)) => match PValue::decode(p.as_slice()) {
                                Some(p) => Some((slot, p)),
                                None => None,
                            },
                            _ => None,
                        }
                    } else {
                        None
                    },
                    None => None,
                },
                None => None,
            };
            match entry {
                Some((slot, p)) => {
                    a.insert(slot, p);
                },
                None => {
                    proof {
                        lemma_accepted_prefix_fails(entries, i - from + 1);
                    }
                    return None;
                },
            }
            i += 1;
        }
        assert(entries.take(i - from) =~= entries);
        Some(a)
    }
}

/// Where the first fields of a list spell no record, the list spells none.
pub proof fn lemma_accepted_prefix_fails(fields: Seq<FieldView>, n: int)
    requires
        0 <= n <= fields.len(),
        accepted_of_fields(fields.take(n)) is None,
    ensures
        accepted_of_fields(fields) is None,
    decreases fields.len() - n,
{
    if n < fields.len() {
        assert(fields.take(n + 1).drop_last() =~= fields.take(n));
        lemma_accepted_prefix_fails(fields, n + 1);
    } else {
        assert(fields.take(n) =~= fields);
    }
}

fn get_pid(fields: &Vec<Field>, i: usize, number: u32) -> (r: Option<ProcessId>)
    ensures
        r == pid_at(field_views(fields@), i as int, number),
{
    match get_octets(fields, i, number) {
        Some(b) => ProcessId::decode(b.as_slice()),
        None => None,
    }
}

fn get_ballot(fields: &Vec<Field>, i: usize, number: u32) -> (r: Option<BallotNumber>)
    ensures
        r == ballot_at(field_views(fields@), i as int, number),
{
    match get_octets(fields, i, number) {
        Some(b) => BallotNumber::decode(b.as_slice()),
        None => None,
    }
}

fn get_command(fields: &Vec<Field>, i: usize, number: u32) -> (r: Option<Command>)
    ensures
        match r {
            Some(c) => command_at(field_views(fields@), i as int, number) == Some(c@),
            None => command_at(field_views(fields@), i as int, number) is None,
        },
{
    match get_octets(fields, i, number) {
        Some(b) => Command::decode(b.as_slice()),
        None => None,
    }
}

/// The field that holds the written command `c`.
fn command_field(c: &Command) -> (f: Field)
    ensures
        f@ == octets_field(5, command_bytes(c@)),
        command_nests(c@),
{
    let written = c.encode();
    assert(written.len() <= usize::MAX);
    nested(5, written)
}

impl Message {
    /// The number that stands for the kind of this message.
    fn kind(&self) -> (k: u64)
        ensures
            k == kind_code(self@),
    {
        match self {
            Message::P1A(_, _) => 0,
            Message::P1B(_, _, _) => 1,
            Message::P2A(_, _, _, _) => 2,
            Message::P2B(_, _, _) => 3,
            Message::Preempt(_, _) => 4,
            Message::Adopt(_, _, _) => 5,
            Message::Decision(_, _, _) => 6,
            Message::Request(_, _) => 7,
            Message::Propose(_, _, _) => 8,
        }
    }

    /// The fields of this message.
    fn fields(&self) -> (fields: Vec<Field>)
        ensures
            field_views(fields@) == message_fields(self@),
            message_fits(self@),
    {
        let mut fields: Vec<Field> = Vec::new();
        fields.push(plain(1, self.kind()));
        fields.push(nested(2, self.id().encode()));
        match self {
            Message::P1A(_, b) => {
                fields.push(nested(3, b.encode()));
            },
            Message::P1B(_, b, a) => {
                fields.push(nested(3, b.encode()));
                a.write_entries(&mut fields);
            },
            Message::P2A(_, b, s, c) => {
                fields.push(nested(3, b.encode()));
                fields.push(plain(4, *s));
                fields.push(command_field(c));
            },
            Message::P2B(_, b, s) => {
                fields.push(nested(3, b.encode()));
                fields.push(plain(4, *s));
            },
            Message::Preempt(_, b) => {
                fields.push(nested(3, b.encode()));
            },
            Message::Adopt(_, b, a) => {
                fields.push(nested(3, b.encode()));
                a.write_entries(&mut fields);
            },
            Message::Decision(_, s, c) => {
                fields.push(plain(4, *s));
                fields.push(command_field(c));
            },
            Message::Request(_, c) => {
                fields.push(command_field(c));
            },
            Message::Propose(_, s, c) => {
                fields.push(plain(4, *s));
                fields.push(command_field(c));
            },
        }
        assert(field_views(fields@) =~= message_fields(self@));
        fields
    }

    /// Writes the message. Reading the result gives it back.
    pub fn encode(&self) -> (out: Vec<u8>)
        ensures
            out@ == message_bytes(self@),
            message_fits(self@),
            parse_message(out@) == Some(self@),
    {
        let fields = self.fields();
        proof {
            lemma_message_round_trip(self@);
        }
        encode_fields(&fields)
    }

    /// Reads a message.
    pub fn decode(b: &[u8]) -> (r: Option<Message>)
        ensures
            match r {
                Some(m) => parse_message(b@) == Some(m@),
                None => parse_message(b@) is None,
            },
    {
        let fields = match decode_fields(b) {
            Some(fields) => fields,
            None => {
                return None;
            },
        };
        let (kind, id) = match (get_number(&fields, 0, 1), get_pid(&fields, 1, 2)) {
            (Some(kind), Some(id)) => (kind, id),
            _ => {
                return None;
            },
        };
        if kind == 0 || kind == 4 {
            match get_ballot(&fields, 2, 3) {
                Some(b) => if fields.len() != 3 {
                    None
                } else if kind == 0 {
                    Some(Message::P1A(id, b))
                } else {
                    Some(Message::Preempt(id, b))
                },
                None => None,
            }
        } else if kind == 1 || kind == 5 {
            match get_ballot(&fields, 2, 3) {
                Some(b) => match Accepted::read_entries(&fields, 3) {
                    Some(a) => if kind == 1 {
                        Some(Message::P1B(id, b, a))
                    } else {
                        Some(Message::Adopt(id, b, a))
                    },
                    None => None,
                },
                None => None,
            }
        } else if kind == 2 {
            match (get_ballot(&fields, 2, 3), get_number(&fields, 3, 4), get_command(&fields, 4, 5)) {
                (Some(b), Some(s), Some(c)) => if fields.len() == 5 {
                    Some(Message::P2A(id, b, s, c))
                } else {
                    None
                },
                _ => None,
            }
        } else if kind == 3 {
            match (get_ballot(&fields, 2, 3), get_number(&fields, 3, 4)) {
                (Some(b), Some(s)) => if fields.len() == 4 {
                    Some(Message::P2B(id, b, s))
                } else {
                    None
                },
                _ => None,
            }
        } else if kind == 6 || kind == 8 {
            match (get_number(&fields, 2, 4), get_command(&fields, 3, 5)) {
                (Some(s), Some(c)) => if fields.len() != 4 {
                    None
                } else if kind == 6 {
                    Some(Message::Decision(id, s, c))
                } else {
                    Some(Message::Propose(id, s, c))
                },
                _ => None,
            }
        } else if kind == 7 {
            match get_command(&fields, 2, 5) {
                Some(c) => if fields.len() == 3 {
                    Some(Message::Request(id, c))
                } else {
                    None
                },
                None => None,
            }
        } else {
            None
        }
    }
}

/// An envelope can be written if its message can, and the written message
/// is not longer than 64 bits can count.
pub open spec fn envelope_fits(w: WireMessageView) -> bool {
    message_fits(w.message) && message_bytes(w.message).len() <= u64::MAX
}

/// The fields of an envelope.
pub open spec fn envelope_fields(w: WireMessageView) -> Seq<FieldView> {
    seq![octets_field(1, pid_bytes(w.to)), octets_field(2, message_bytes(w.message))]
}

/// The envelope that a list of fields spells.
pub open spec fn envelope_of_fields(fields: Seq<FieldView>) -> Option<WireMessageView> {
    if fields.len() == 2 {
        match (pid_at(fields, 0, 1), octets_at(fields, 1, 2)) {
            (Some(to), Some(m)) => match parse_message(m) {
                Some(message) => Some(WireMessageView { to, message }),
                None => None,
            },
            _ => None,
        }
    } else {
        None
    }
}

/// How an envelope is written.
pub open spec fn encode_spec(w: WireMessageView) -> Seq<u8> {
    fields_bytes(envelope_fields(w))
}

/// The envelope that `b` spells.
pub open spec fn decode_spec(b: Seq<u8>) -> Option<WireMessageView> {
    match parse_fields(b) {
        Some(fields) => envelope_of_fields(fields),
        None => None,
    }
}

/// Reading gives back a written envelope: for every envelope `w` that can
/// be written, `decode(encode(w)) == w`.
pub proof fn lemma_round_trip(w: WireMessageView)
    requires
        envelope_fits(w),
    ensures
        decode_spec(encode_spec(w)) == Some(w),
{
    lemma_pid_bytes_len(w.to);
    lemma_pid_round_trip(w.to);
    lemma_message_round_trip(w.message);
    lemma_fields_round_trip(envelope_fields(w));
}

impl WireMessage {
    /// Writes the envelope. Reading the result gives it back.
    pub fn encode(&self) -> (out: Vec<u8>)
        ensures
            out@ == encode_spec(self@),
            envelope_fits(self@),
            decode_spec(out@) == Some(self@),
    {
        let mut fields: Vec<Field> = Vec::new();
        fields.push(nested(1, self.to.encode()));
        let message = self.message.encode();
        assert(message.len() <= usize::MAX);
        fields.push(nested(2, message));
        assert(field_views(fields@) =~= envelope_fields(self@));
        proof {
            lemma_round_trip(self@);
        }
        encode_fields(&fields)
    }

    /// Reads an envelope.
    pub fn decode(b: &[u8]) -> (r: Option<WireMessage>)
        ensures
            match r {
                Some(w) => decode_spec(b@) == Some(w@),
                None => decode_spec(b@) is None,
            },
    {
        let fields = match decode_fields(b) {
            Some(fields) => fields,
            None => {
                return None;
            },
        };
        if fields.len() != 2 {
            return None;
        }
        match (get_pid(&fields, 0, 1), get_octets(&fields, 1, 2)) {
            (Some(to), Some(m)) => match Message::decode(m.as_slice()) {
                Some(message) => Some(WireMessage { to, message }),
                None => None,
            },
            _ => None,
        }
    }
}

} // verus!
