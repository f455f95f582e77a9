//! Ballots, commands and p-values: the values the protocol agrees on and the
//! tokens it orders them by.

use crate::env::{lemma_id_order_total, lemma_id_order_transitive, ProcessId};
use bytes::Bytes;
use std::cmp::Ordering;
use vstd::pervasive::unreached;
use vstd::prelude::*;
use vstd::std_specs::cmp::{PartialEqSpecImpl, PartialOrdSpecImpl};
use vstd::utf8::{encode_utf8, valid_utf8};

verus! {

/// An index in the replicated log. Replicas hand them out from 1 upwards.
pub type SlotNumber = u64;

/// A ballot: a round, and the leader that owns it. Ballots are ordered by
/// round first and by owner second, so no two leaders ever hold the same one.
#[derive(Clone, Copy, Debug, PartialEq, Eq, Structural, Hash, Ord)]
pub struct BallotNumber {
    pub round: u64,
    pub process_id: ProcessId,
}

impl BallotNumber {
    pub fn new(round: u64, process_id: ProcessId) -> (b: BallotNumber)
        ensures
            b == (BallotNumber { round, process_id }),
    {
        BallotNumber { round, process_id }
    }

    /// The ballot every process starts from: round 0, owned by `pid`.
    pub fn first(pid: ProcessId) -> (b: BallotNumber)
        ensures
            b == (BallotNumber { round: 0, process_id: pid }),
    {
        BallotNumber::new(0, pid)
    }

    /// The order of ballots: by round, then by owner.
    pub open spec fn compare(self, other: BallotNumber) -> Ordering {
        if self.round < other.round {
            Ordering::Less
        } else if self.round > other.round {
            Ordering::Greater
        } else {
            self.process_id.compare(other.process_id)
        }
    }

    /// `self` comes strictly before `other`.
    pub open spec fn below(self, other: BallotNumber) -> bool {
        self.compare(other) == Ordering::Less
    }

    /// `self` comes before `other` or is `other`.
    pub open spec fn at_most(self, other: BallotNumber) -> bool {
        self.compare(other) != Ordering::Greater
    }
}

/// The order of ballots is total: of two ballots, one comes before the
/// other or they are the same, and never two of these at once.
pub proof fn lemma_ballot_order_total(a: BallotNumber, b: BallotNumber)
    ensures
        a.compare(b) == Ordering::Equal <==> a == b,
        a.compare(b) == Ordering::Less <==> b.compare(a) == Ordering::Greater,
        a.below(b) || a == b || b.below(a),
        !(a.below(b) && b.below(a)),
        !a.below(a),
        a.at_most(b) <==> a.below(b) || a == b,
        a.at_most(b) <==> !b.below(a),
{
    lemma_id_order_total(a.process_id, b.process_id);
    lemma_id_order_total(b.process_id, a.process_id);
}

/// The order of ballots is transitive.
pub proof fn lemma_ballot_order_transitive(a: BallotNumber, b: BallotNumber, c: BallotNumber)
    requires
        a.at_most(b),
        b.at_most(c),
    ensures
        a.at_most(c),
        a.below(b) || b.below(c) ==> a.below(c),
{
    lemma_ballot_order_total(a, b);
    lemma_ballot_order_total(b, c);
    lemma_ballot_order_total(a, c);
    if a.round == b.round && b.round == c.round && a != b && b != c {
        lemma_id_order_transitive(a.process_id, b.process_id, c.process_id);
    }
}

/// Within one round the owners decide: `(r, a)` comes before `(r, b)` if and
/// only if `a` comes before `b`.
pub proof fn lemma_same_round_by_owner(round: u64, a: ProcessId, b: ProcessId)
    ensures
        (BallotNumber { round, process_id: a }).below(BallotNumber { round, process_id: b })
            <==> a.below(b),
{
}

/// A lower round comes first, whoever the owners are.
pub proof fn lemma_lower_round_first(low: u64, high: u64, a: ProcessId, b: ProcessId)
    requires
        low < high,
    ensures
        (BallotNumber { round: low, process_id: a }).below(
            BallotNumber { round: high, process_id: b },
        ),
{
}

impl PartialOrd for BallotNumber {
    fn partial_cmp(&self, other: &BallotNumber) -> (r: Option<Ordering>) {
        if self.round < other.round {
            Some(Ordering::Less)
        } else if self.round > other.round {
            Some(Ordering::Greater)
        } else {
            self.process_id.partial_cmp(&other.process_id)
        }
    }
}

impl PartialOrdSpecImpl for BallotNumber {
    open spec fn obeys_partial_cmp_spec() -> bool {
        true
    }

    open spec fn partial_cmp_spec(&self, other: &BallotNumber) -> Option<Ordering> {
        Some(self.compare(*other))
    }
}

/// `bytes::Bytes`, an immutable buffer of octets that is cheap to clone.
#[verifier::external_type_specification]
#[verifier::external_body]
pub struct ExBytes(Bytes);

/// The octets a buffer holds, in order.
pub uninterp spec fn bytes_contents(b: Bytes) -> Seq<u8>;

/// `Bytes::from(String)`: the buffer takes over the string's storage, so it
/// holds the string's UTF-8 encoding.
#[verifier::external_body]
pub(crate) fn bytes_from_string(s: String) -> (b: Bytes)
    ensures
        bytes_contents(b) == encode_utf8(s@),
{
    Bytes::from(s)
}

/// `Bytes::from(Vec<u8>)`: the buffer takes over the vector's storage and
/// holds the same octets.
#[verifier::external_body]
pub(crate) fn bytes_from_vec(v: Vec<u8>) -> (b: Bytes)
    ensures
        bytes_contents(b) == v@,
{
    Bytes::from(v)
}

/// `Bytes::as_ref`: the buffer's octets as a slice.
#[verifier::external_body]
pub(crate) fn bytes_as_slice(b: &Bytes) -> (s: &[u8])
    ensures
        s@ == bytes_contents(*b),
{
    b.as_ref()
}

/// `Bytes::clone`: a second handle on the same octets.
#[verifier::external_body]
pub(crate) fn bytes_clone(b: &Bytes) -> (c: Bytes)
    ensures
        bytes_contents(c) == bytes_contents(*b),
{
    b.clone()
}

/// `Bytes::eq`: two buffers are equal when they hold the same octets.
#[verifier::external_body]
pub(crate) fn bytes_eq(a: &Bytes, b: &Bytes) -> (r: bool)
    ensures
        r == (bytes_contents(*a) == bytes_contents(*b)),
{
    a == b
}

/// `std::str::from_utf8`: the slice read as text, if it is valid UTF-8.
#[verifier::external_body]
pub(crate) fn utf8_text(v: &[u8]) -> (r: Option<&str>)
    ensures
        r is Some <==> valid_utf8(v@),
        r matches Some(s) ==> encode_utf8(s@) == v@,
{
    std::str::from_utf8(v).ok()
}

/// A client's request: who asked, the client's own name for the request, and
/// the operation. Request name and operation are opaque octets.
#[derive(Debug, Eq, Hash)]
pub struct Command {
    pub client: ProcessId,
    pub req_id: Bytes,
    pub operation: Bytes,
}

/// What a command is: its client and the octets of its two fields.
pub struct CommandView {
    pub client: ProcessId,
    pub req_id: Seq<u8>,
    pub operation: Seq<u8>,
}

impl View for Command {
    type V = CommandView;

    open spec fn view(&self) -> CommandView {
        CommandView {
            client: self.client,
            req_id: bytes_contents(self.req_id),
            operation: bytes_contents(self.operation),
        }
    }
}

impl Command {
    /// The command of client `id` whose request name and operation are the
    /// UTF-8 encodings of the two strings.
    pub fn new_from_str(id: ProcessId, req_id: String, op: String) -> (c: Command)
        ensures
            c@ == (CommandView {
                client: id,
                req_id: encode_utf8(req_id@),
                operation: encode_utf8(op@),
            }),
    {
        Command { client: id, req_id: bytes_from_string(req_id), operation: bytes_from_string(op) }
    }

    /// The command of client `id` with the given octets.
    pub fn new(id: ProcessId, req_id: Vec<u8>, op: Vec<u8>) -> (c: Command)
        ensures
            c@ == (CommandView { client: id, req_id: req_id@, operation: op@ }),
    {
        Command { client: id, req_id: bytes_from_vec(req_id), operation: bytes_from_vec(op) }
    }

    /// The request name as text, where it is text.
    pub fn try_req_id_str(&self) -> (r: Option<&str>)
        ensures
            r is Some <==> valid_utf8(self@.req_id),
            r matches Some(s) ==> encode_utf8(s@) == self@.req_id,
    {
        utf8_text(bytes_as_slice(&self.req_id))
    }

    /// The operation as text, where it is text.
    pub fn try_op_str(&self) -> (r: Option<&str>)
        ensures
            r is Some <==> valid_utf8(self@.operation),
            r matches Some(s) ==> encode_utf8(s@) == self@.operation,
    {
        utf8_text(bytes_as_slice(&self.operation))
    }

    /// The request name as text.
    pub fn req_id_str(&self) -> (s: &str)
        requires
            valid_utf8(self@.req_id),
        ensures
            encode_utf8(s@) == self@.req_id,
    {
        match utf8_text(bytes_as_slice(&self.req_id)) {
            Some(s) => s,
            None => unreached(),
        }
    }

    /// The operation as text.
    pub fn op_str(&self) -> (s: &str)
        requires
            valid_utf8(self@.operation),
        ensures
            encode_utf8(s@) == self@.operation,
    {
        match utf8_text(bytes_as_slice(&self.operation)) {
            Some(s) => s,
            None => unreached(),
        }
    }
}

impl Clone for Command {
    fn clone(&self) -> (c: Command)
        ensures
            c@ == self@,
    {
        Command {
            client: self.client,
            req_id: bytes_clone(&self.req_id),
            operation: bytes_clone(&self.operation),
        }
    }
}

impl PartialEq for Command {
    fn eq(&self, other: &Command) -> (r: bool) {
        self.client == other.client && bytes_eq(&self.req_id, &other.req_id) && bytes_eq(
            &self.operation,
            &other.operation,
        )
    }
}

impl PartialEqSpecImpl for Command {
    open spec fn obeys_eq_spec() -> bool {
        true
    }

    open spec fn eq_spec(&self, other: &Command) -> bool {
        self@ == other@
    }
}

/// "Ballot `ballot` proposed `command` for slot `slot`."
#[derive(Debug, Eq, Hash)]
pub struct PValue {
    pub ballot: BallotNumber,
    pub slot: SlotNumber,
    pub command: Command,
}

/// What a p-value is.
pub struct PValueView {
    pub ballot: BallotNumber,
    pub slot: SlotNumber,
    pub command: CommandView,
}

impl View for PValue {
    type V = PValueView;

    open spec fn view(&self) -> PValueView {
        PValueView { ballot: self.ballot, slot: self.slot, command: self.command@ }
    }
}

impl PValue {
    pub fn new(ballot: BallotNumber, slot: u64, command: Command) -> (p: PValue)
        ensures
            p == (PValue { ballot, slot, command }),
    {
        PValue { ballot, slot, command }
    }
}

impl Clone for PValue {
    fn clone(&self) -> (p: PValue)
        ensures
            p@ == self@,
    {
        PValue { ballot: self.ballot, slot: self.slot, command: self.command.clone() }
    }
}

impl PartialEq for PValue {
    fn eq(&self, other: &PValue) -> (r: bool) {
        self.ballot == other.ballot && self.slot == other.slot && self.command == other.command
    }
}

impl PartialEqSpecImpl for PValue {
    open spec fn obeys_eq_spec() -> bool {
        true
    }

    open spec fn eq_spec(&self, other: &PValue) -> bool {
        self@ == other@
    }
}

} // verus!
