//! The messages the roles exchange, and the envelope that carries one to
//! its receiver.

use crate::ds::Accepted;
use crate::env::ProcessId;
use crate::pval::{BallotNumber, Command, CommandView, PValueView, SlotNumber};
use vstd::prelude::*;

verus! {

/// One message of the protocol. The first field of every variant is the
/// sender.
#[derive(Debug, PartialEq, Eq)]
pub enum Message {
    /// Scout to acceptor: will you promise this ballot?
    P1A(ProcessId, BallotNumber),
    /// Acceptor to scout: the ballot asked about, and all I have accepted.
    P1B(ProcessId, BallotNumber, Accepted),
    /// Commander to acceptor: accept this command for this slot.
    P2A(ProcessId, BallotNumber, SlotNumber, Command),
    /// Acceptor to commander: the ballot I now hold, for this slot.
    P2B(ProcessId, BallotNumber, SlotNumber),
    /// Scout or commander to leader: a different ballot is about.
    Preempt(ProcessId, BallotNumber),
    /// Scout to leader: a majority answered; these are their p-values.
    Adopt(ProcessId, BallotNumber, Accepted),
    /// Commander to replicas and leader: the slot is decided.
    Decision(ProcessId, SlotNumber, Command),
    /// Client to replica.
    Request(ProcessId, Command),
    /// Replica to leader: I would like this command in this slot.
    Propose(ProcessId, SlotNumber, Command),
}

/// What a message is.
pub enum MessageView {
    P1A(ProcessId, BallotNumber),
    P1B(ProcessId, BallotNumber, Map<SlotNumber, PValueView>),
    P2A(ProcessId, BallotNumber, SlotNumber, CommandView),
    P2B(ProcessId, BallotNumber, SlotNumber),
    Preempt(ProcessId, BallotNumber),
    Adopt(ProcessId, BallotNumber, Map<SlotNumber, PValueView>),
    Decision(ProcessId, SlotNumber, CommandView),
    Request(ProcessId, CommandView),
    Propose(ProcessId, SlotNumber, CommandView),
}

impl MessageView {
    /// The sender.
    pub open spec fn id(self) -> ProcessId {
        match self {
            MessageView::P1A(id, _) => id,
            MessageView::P1B(id, _, _) => id,
            MessageView::P2A(id, _, _, _) => id,
            MessageView::P2B(id, _, _) => id,
            MessageView::Preempt(id, _) => id,
            MessageView::Adopt(id, _, _) => id,
            MessageView::Decision(id, _, _) => id,
            MessageView::Request(id, _) => id,
            MessageView::Propose(id, _, _) => id,
        }
    }
}

impl MessageView {
    /// The message announces that `slot` is decided as `c`.
    pub open spec fn decides(self, slot: SlotNumber, c: CommandView) -> bool {
        match self {
            MessageView::Decision(_, s, d) => s == slot && d == c,
            _ => false,
        }
    }
}

impl View for Message {
    type V = MessageView;

    open spec fn view(&self) -> MessageView {
        match self {
            Message::P1A(id, b) => MessageView::P1A(*id, *b),
            Message::P1B(id, b, a) => MessageView::P1B(*id, *b, a@),
            Message::P2A(id, b, s, c) => MessageView::P2A(*id, *b, *s, c@),
            Message::P2B(id, b, s) => MessageView::P2B(*id, *b, *s),
            Message::Preempt(id, b) => MessageView::Preempt(*id, *b),
            Message::Adopt(id, b, a) => MessageView::Adopt(*id, *b, a@),
            Message::Decision(id, s, c) => MessageView::Decision(*id, *s, c@),
            Message::Request(id, c) => MessageView::Request(*id, c@),
            Message::Propose(id, s, c) => MessageView::Propose(*id, *s, c@),
        }
    }
}

impl Message {
    /// The sender.
    pub fn id(&self) -> (id: &ProcessId)
        ensures
            *id == self@.id(),
    {
        match self {
            Message::P1A(id, _) => id,
            Message::P1B(id, _, _) => id,
            Message::P2A(id, _, _, _) => id,
            Message::P2B(id, _, _) => id,
            Message::Preempt(id, _) => id,
            Message::Adopt(id, _, _) => id,
            Message::Decision(id, _, _) => id,
            Message::Request(id, _) => id,
            Message::Propose(id, _, _) => id,
        }
    }
}

impl Clone for Message {
    fn clone(&self) -> (m: Message)
        ensures
            m@ == self@,
    {
        match self {
            Message::P1A(id, b) => Message::P1A(*id, *b),
            Message::P1B(id, b, a) => Message::P1B(*id, *b, a.clone()),
            Message::P2A(id, b, s, c) => Message::P2A(*id, *b, *s, c.clone()),
            Message::P2B(id, b, s) => Message::P2B(*id, *b, *s),
            Message::Preempt(id, b) => Message::Preempt(*id, *b),
            Message::Adopt(id, b, a) => Message::Adopt(*id, *b, a.clone()),
            Message::Decision(id, s, c) => Message::Decision(*id, *s, c.clone()),
            Message::Request(id, c) => Message::Request(*id, c.clone()),
            Message::Propose(id, s, c) => Message::Propose(*id, *s, c.clone()),
        }
    }
}

/// A message on its way: the receiver, and the message.
#[derive(Debug, PartialEq, Eq)]
pub struct WireMessage {
    pub to: ProcessId,
    pub message: Message,
}

/// What an envelope is.
pub struct WireMessageView {
    pub to: ProcessId,
    pub message: MessageView,
}

impl View for WireMessage {
    type V = WireMessageView;

    open spec fn view(&self) -> WireMessageView {
        WireMessageView { to: self.to, message: self.message@ }
    }
}

impl WireMessage {
    pub fn new(to: ProcessId, message: Message) -> (w: WireMessage)
        ensures
            w == (WireMessage { to, message }),
    {
        WireMessage { to, message }
    }
}

impl Clone for WireMessage {
    fn clone(&self) -> (w: WireMessage)
        ensures
            w@ == self@,
    {
        WireMessage { to: self.to, message: self.message.clone() }
    }
}

/// The views of a list of envelopes, in order.
pub open spec fn envelope_views(out: Seq<WireMessage>) -> Seq<WireMessageView> {
    out.map_values(|w: WireMessage| w@)
}

/// `m` addressed to each of `targets`, in their order.
pub open spec fn broadcast_views(m: MessageView, targets: Seq<ProcessId>) -> Seq<WireMessageView> {
    targets.map_values(|t: ProcessId| WireMessageView { to: t, message: m })
}

/// One copy of `m` for each of `targets`, in their order.
pub fn broadcast(m: &Message, targets: &Vec<ProcessId>) -> (out: Vec<WireMessage>)
    ensures
        envelope_views(out@) == broadcast_views(m@, targets@),
{
    let mut out: Vec<WireMessage> = Vec::new();
    let mut i: usize = 0;
    while i < targets.len()
        invariant
            i <= targets.len(),
            out@.len() == i,
            forall|j: int|
                0 <= j < i ==> (#[trigger] out@[j])@ == (WireMessageView {
                    to: targets@[j],
                    message: m@,
                }),
        decreases targets.len() - i,
    {
        out.push(WireMessage::new(targets[i], m.clone()));
        i += 1;
    }
    assert(envelope_views(out@) =~= broadcast_views(m@, targets@));
    out
}

/// Why a role refused a message.
#[derive(Clone, Copy, Debug, PartialEq, Eq, Structural)]
pub enum ProtocolError {
    /// The role does not take messages of this kind.
    UnexpectedMessage,
    /// A leader was told of a decision for a slot it never proposed.
    UnknownSlot,
    /// A leader would have to go past the last round.
    RoundOverflow,
    /// A replica has no slot left to propose in.
    SlotsExhausted,
}

} // verus!
