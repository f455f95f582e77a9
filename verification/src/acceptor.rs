//! The acceptor: the memory of the cluster. It promises ballots and accepts
//! p-values, and never goes back on either.

use crate::ds::{accepted_insert, lemma_insert_keeps_maximum, Accepted};
use crate::env::ProcessId;
use crate::message::{Message, MessageView, ProtocolError, WireMessage, WireMessageView};
use crate::pval::{lemma_ballot_order_total, lemma_ballot_order_transitive, BallotNumber, PValue,
    PValueView, SlotNumber};
use vstd::prelude::*;

verus! {

/// An acceptor's state.
pub struct Acceptor {
    me: ProcessId,
    ballot: BallotNumber,
    accepted: Accepted,
}

/// What an acceptor's state is.
pub struct AcceptorView {
    pub me: ProcessId,
    /// The highest ballot promised so far.
    pub ballot: BallotNumber,
    /// The p-values accepted so far, the highest ballot of each slot.
    pub accepted: Map<SlotNumber, PValueView>,
}

impl AcceptorView {
    /// The state of an acceptor that has seen no message.
    pub open spec fn initial(id: ProcessId) -> AcceptorView {
        AcceptorView {
            me: id,
            ballot: BallotNumber { round: 0, process_id: id },
            accepted: Map::empty(),
        }
    }

    /// An acceptor takes phase-1 and phase-2 requests and nothing else.
    pub open spec fn handles(m: MessageView) -> bool {
        m is P1A || m is P2A
    }

    /// The state after `m`.
    ///
    /// A phase-1 request raises the promise to its ballot if that is higher.
    /// A phase-2 request at or above the promise raises the promise to its
    /// ballot and is accepted; one below the promise changes nothing.
    pub open spec fn next(self, m: MessageView) -> AcceptorView {
        match m {
            MessageView::P1A(_, b) => if self.ballot.below(b) {
                AcceptorView { ballot: b, ..self }
            } else {
                self
            },
            MessageView::P2A(_, b, s, c) => if self.ballot.at_most(b) {
                AcceptorView {
                    ballot: b,
                    accepted: accepted_insert(
                        self.accepted,
                        s,
                        PValueView { ballot: b, slot: s, command: c },
                    ),
                    ..self
                }
            } else {
                self
            },
            _ => self,
        }
    }

    /// The answer to `m`, for the messages an acceptor handles.
    ///
    /// To a phase-1 request: the ballot that was asked about, with all that
    /// is accepted. To a phase-2 request: the promise as it stands after the
    /// request, so that a commander whose ballot was overtaken learns of it.
    pub open spec fn reply(self, m: MessageView) -> WireMessageView {
        match m {
            MessageView::P1A(src, b) => WireMessageView {
                to: src,
                message: MessageView::P1B(self.me, b, self.accepted),
            },
            MessageView::P2A(src, _, s, _) => WireMessageView {
                to: src,
                message: MessageView::P2B(self.me, self.next(m).ballot, s),
            },
            _ => arbitrary(),
        }
    }
}

impl AcceptorView {
    /// The state after the messages of `msgs`, one after the other.
    pub open spec fn after(self, msgs: Seq<MessageView>) -> AcceptorView
        decreases msgs.len(),
    {
        if msgs.len() == 0 {
            self
        } else {
            self.after(msgs.drop_last()).next(msgs.last())
        }
    }

    /// `m` is a phase-2 request that this state turns down: its ballot is
    /// below the promise.
    pub open spec fn rejects(self, m: MessageView) -> bool {
        match m {
            MessageView::P2A(_, b, _, _) => !self.ballot.at_most(b),
            _ => false,
        }
    }

    /// No accepted p-value is above the promise.
    pub open spec fn promise_covers_accepted(self) -> bool {
        forall|s: SlotNumber| #[trigger]
            self.accepted.contains_key(s) ==> self.accepted[s].ballot.at_most(self.ballot)
    }

    /// The p-value accepted for `slot` is at or above `b`.
    pub open spec fn holds_at_least(self, slot: SlotNumber, b: BallotNumber) -> bool {
        self.accepted.contains_key(slot) && b.at_most(self.accepted[slot].ballot)
    }
}

/// One message never lowers the promise, never drops an accepted slot and
/// never lowers the ballot accepted for a slot.
pub proof fn lemma_acceptor_step_grows(a: AcceptorView, m: MessageView, slot: SlotNumber)
    ensures
        a.ballot.at_most(a.next(m).ballot),
        a.next(m).me == a.me,
        a.accepted.contains_key(slot) ==> a.next(m).accepted.contains_key(slot)
            && a.accepted[slot].ballot.at_most(a.next(m).accepted[slot].ballot),
        a.promise_covers_accepted() ==> a.next(m).promise_covers_accepted(),
{
    lemma_ballot_order_total(a.ballot, a.ballot);
    if a.accepted.contains_key(slot) {
        lemma_ballot_order_total(a.accepted[slot].ballot, a.accepted[slot].ballot);
    }
    match m {
        MessageView::P1A(_, b) => {
            lemma_ballot_order_total(a.ballot, b);
            if a.promise_covers_accepted() && a.ballot.below(b) {
                assert forall|s: SlotNumber| #[trigger]
                    a.accepted.contains_key(s) implies a.accepted[s].ballot.at_most(b) by {
                    lemma_ballot_order_transitive(a.accepted[s].ballot, a.ballot, b);
                }
            }
        },
        MessageView::P2A(_, b, s, c) => {
            let offered = PValueView { ballot: b, slot: s, command: c };
            lemma_insert_keeps_maximum(a.accepted, s, offered);
            if a.promise_covers_accepted() && a.ballot.at_most(b) {
                assert forall|t: SlotNumber| #[trigger]
                    a.next(m).accepted.contains_key(t) implies a.next(m).accepted[t].ballot.at_most(
                    b,
                ) by {
                    lemma_ballot_order_total(b, b);
                    if a.accepted.contains_key(t) {
                        lemma_ballot_order_transitive(a.accepted[t].ballot, a.ballot, b);
                    }
                }
            }
        },
        _ => {},
    }
}

/// Over any run of messages the promise does not fall, and neither does the
/// ballot accepted for a slot.
pub proof fn lemma_acceptor_run_grows(a: AcceptorView, msgs: Seq<MessageView>, slot: SlotNumber)
    ensures
        a.ballot.at_most(a.after(msgs).ballot),
        a.accepted.contains_key(slot) ==> a.after(msgs).accepted.contains_key(slot)
            && a.accepted[slot].ballot.at_most(a.after(msgs).accepted[slot].ballot),
        a.promise_covers_accepted() ==> a.after(msgs).promise_covers_accepted(),
    decreases msgs.len(),
{
    if msgs.len() == 0 {
        lemma_ballot_order_total(a.ballot, a.ballot);
        if a.accepted.contains_key(slot) {
            lemma_ballot_order_total(a.accepted[slot].ballot, a.accepted[slot].ballot);
        }
    } else {
        let before = a.after(msgs.drop_last());
        lemma_acceptor_run_grows(a, msgs.drop_last(), slot);
        lemma_acceptor_step_grows(before, msgs.last(), slot);
        lemma_ballot_order_transitive(a.ballot, before.ballot, a.after(msgs).ballot);
        if a.accepted.contains_key(slot) {
            lemma_ballot_order_transitive(
                a.accepted[slot].ballot,
                before.accepted[slot].ballot,
                a.after(msgs).accepted[slot].ballot,
            );
        }
    }
}

/// The promise stays above every phase-2 request that was turned down: if,
/// in a run of messages, the `i`-th is a request for ballot `b` that the
/// acceptor rejects when it comes, then `b` is below the promise at the end
/// of the run.
pub proof fn lemma_rejected_stays_below_promise(
    a: AcceptorView,
    msgs: Seq<MessageView>,
    i: int,
    b: BallotNumber,
)
    requires
        0 <= i < msgs.len(),
        msgs[i] matches MessageView::P2A(_, ballot, _, _) && ballot == b,
        a.after(msgs.take(i)).rejects(msgs[i]),
    ensures
        b.below(a.after(msgs).ballot),
    decreases msgs.len() - i,
{
    let then = a.after(msgs.take(i));
    lemma_ballot_order_total(then.ballot, b);
    if i == msgs.len() - 1 {
        assert(msgs.take(i) =~= msgs.drop_last());
    } else {
        assert(msgs.drop_last().take(i) =~= msgs.take(i));
        lemma_rejected_stays_below_promise(a, msgs.drop_last(), i, b);
        let before = a.after(msgs.drop_last());
        lemma_acceptor_step_grows(before, msgs.last(), 0);
        lemma_ballot_order_total(b, before.ballot);
        lemma_ballot_order_transitive(b, before.ballot, a.after(msgs).ballot);
    }
}

/// What is accepted for a slot stays at or above a request that was turned
/// down, once it is there: if, in a run of messages, the `i`-th is a request
/// for ballot `b` and slot `slot` that the acceptor rejects when it comes,
/// and the p-value it then holds for `slot` is at or above `b`, then the
/// p-value it holds for `slot` at the end of the run is at or above `b`.
pub proof fn lemma_accepted_stays_above_rejected(
    a: AcceptorView,
    msgs: Seq<MessageView>,
    i: int,
    b: BallotNumber,
    slot: SlotNumber,
)
    requires
        0 <= i < msgs.len(),
        msgs[i] matches MessageView::P2A(_, ballot, s, _) && ballot == b && s == slot,
        a.after(msgs.take(i)).rejects(msgs[i]),
        a.after(msgs.take(i)).holds_at_least(slot, b),
    ensures
        a.after(msgs).holds_at_least(slot, b),
    decreases msgs.len() - i,
{
    let then = a.after(msgs.take(i));
    if i == msgs.len() - 1 {
        assert(msgs.take(i) =~= msgs.drop_last());
        assert(a.after(msgs) == then.next(msgs[i]));
    } else {
        assert(msgs.drop_last().take(i) =~= msgs.take(i));
        lemma_accepted_stays_above_rejected(a, msgs.drop_last(), i, b, slot);
        let before = a.after(msgs.drop_last());
        lemma_acceptor_step_grows(before, msgs.last(), slot);
        lemma_ballot_order_transitive(
            b,
            before.accepted[slot].ballot,
            a.after(msgs).accepted[slot].ballot,
        );
    }
}

/// A request that comes twice counts once: after an acceptor has handled a
/// phase-1 or phase-2 request, handling the same request again changes
/// neither its promise nor what it has accepted, and gets the same answer.
pub proof fn lemma_replay_changes_nothing(a: AcceptorView, m: MessageView)
    requires
        AcceptorView::handles(m),
    ensures
        a.next(m).next(m) == a.next(m),
        a.next(m).reply(m) == a.reply(m),
{
    match m {
        MessageView::P1A(_, b) => {
            lemma_ballot_order_total(b, b);
            lemma_ballot_order_total(a.ballot, b);
        },
        MessageView::P2A(_, b, s, c) => {
            let offered = PValueView { ballot: b, slot: s, command: c };
            lemma_ballot_order_total(b, b);
            lemma_ballot_order_total(a.ballot, b);
            lemma_insert_keeps_maximum(a.accepted, s, offered);
            if a.ballot.at_most(b) {
                let once = a.next(m);
                lemma_ballot_order_total(once.accepted[s].ballot, b);
                assert(once.next(m).accepted =~= once.accepted);
            }
        },
        _ => {},
    }
}

impl View for Acceptor {
    type V = AcceptorView;

    closed spec fn view(&self) -> AcceptorView {
        AcceptorView { me: self.me, ballot: self.ballot, accepted: self.accepted@ }
    }
}

impl Acceptor {
    pub fn new(id: ProcessId) -> (a: Acceptor)
        ensures
            a@ == AcceptorView::initial(id),
    {
        Acceptor { me: id, ballot: BallotNumber::first(id), accepted: Accepted::new() }
    }

    /// Handles one message and returns the reply to send. A message that is
    /// no request to an acceptor is refused and leaves the state as it was.
    pub fn exec(&mut self, msg: Message) -> (r: Result<WireMessage, ProtocolError>)
        ensures
            match r {
                Ok(reply) => {
                    &&& AcceptorView::handles(msg@)
                    &&& final(self)@ == old(self)@.next(msg@)
                    &&& reply@ == old(self)@.reply(msg@)
                },
                Err(e) => {
                    &&& !AcceptorView::handles(msg@)
                    &&& e == ProtocolError::UnexpectedMessage
                    &&& final(self)@ == old(self)@
                },
            },
    {
        match msg {
            Message::P1A(src, ballot) => {
                if self.ballot < ballot {
                    self.ballot = ballot;
                }
                Ok(WireMessage::new(src, Message::P1B(self.me, ballot, self.accepted.clone())))
            },
            Message::P2A(src, ballot, slot, command) => {
                if self.ballot <= ballot {
                    self.ballot = ballot;
                    let p = PValue::new(self.ballot, slot, command);
                    self.accepted.insert(slot, p);
                }
                Ok(WireMessage::new(src, Message::P2B(self.me, self.ballot, slot)))
            },
            _ => Err(ProtocolError::UnexpectedMessage),
        }
    }

    /// This acceptor's identifier.
    pub fn me(&self) -> (id: ProcessId)
        ensures
            id == self@.me,
    {
        self.me
    }

    /// The highest ballot promised so far.
    pub fn ballot(&self) -> (b: BallotNumber)
        ensures
            b == self@.ballot,
    {
        self.ballot
    }

    /// The p-values accepted so far.
    pub fn accepted(&self) -> (a: &Accepted)
        ensures
            a@ == self@.accepted,
    {
        &self.accepted
    }
}

} // verus!
