//! The replica: it gives requests a slot, and hands decided commands to the
//! application in slot order, each command once.

use crate::ds::{ascending, ascending_keys, lemma_ascending};
use crate::env::{Cluster, ProcessId, ProcessType};
use crate::message::{broadcast, broadcast_views, envelope_views, Message, MessageView,
    ProtocolError, WireMessage, WireMessageView};
use crate::pval::{Command, CommandView, SlotNumber};
use std::collections::HashMap;
use vstd::pervasive::unreached;
use vstd::prelude::*;
use vstd::std_specs::hash::*;

verus! {

broadcast use group_hash_axioms;

/// A replica's state.
pub struct Replica {
    me: ProcessId,
    slot: SlotNumber,
    proposals: HashMap<SlotNumber, Command>,
    decisions: HashMap<SlotNumber, Command>,
}

/// What a replica's state is.
pub struct ReplicaView {
    pub me: ProcessId,
    /// The next slot to perform.
    pub slot: SlotNumber,
    /// What this replica has asked the leaders for, by slot.
    pub proposals: Map<SlotNumber, CommandView>,
    /// What this replica has been told is decided, by slot.
    pub decisions: Map<SlotNumber, CommandView>,
}

/// What a replica hands back after a message: the messages to send, and the
/// commands to execute, in order.
#[derive(Debug, PartialEq, Eq)]
pub struct ReplicaOutput {
    pub sent: Vec<WireMessage>,
    pub performed: Vec<Command>,
}

/// What a replica's answer is.
pub struct ReplicaOutputView {
    pub sent: Seq<WireMessageView>,
    pub performed: Seq<CommandView>,
}

impl View for ReplicaOutput {
    type V = ReplicaOutputView;

    open spec fn view(&self) -> ReplicaOutputView {
        ReplicaOutputView {
            sent: envelope_views(self.sent@),
            performed: self.performed@.map_values(|c: Command| c@),
        }
    }
}

/// The outcome of working through the decided slots.
pub struct Drained {
    pub state: ReplicaView,
    pub output: ReplicaOutputView,
    /// Whether some command that lost its slot found no slot to move to.
    pub exhausted: bool,
}

impl ReplicaView {
    /// The state of a replica that has seen no message.
    pub open spec fn initial(me: ProcessId) -> ReplicaView {
        ReplicaView { me, slot: 1, proposals: Map::empty(), decisions: Map::empty() }
    }

    /// `c` is the decision of some slot.
    pub open spec fn decided(self, c: CommandView) -> bool {
        exists|s: SlotNumber| #[trigger] self.decisions.contains_key(s) && self.decisions[s] == c
    }

    /// `c` is the decision of some slot before `limit`.
    pub open spec fn decided_before(self, c: CommandView, limit: SlotNumber) -> bool {
        exists|s: SlotNumber|
            s < limit && #[trigger] self.decisions.contains_key(s) && self.decisions[s] == c
    }

    /// Slot `s` holds a proposal or a decision.
    pub open spec fn occupied(self, s: SlotNumber) -> bool {
        self.proposals.contains_key(s) || self.decisions.contains_key(s)
    }

    /// The first slot from `from` on, and before the last number there is,
    /// that holds neither a proposal nor a decision.
    pub open spec fn free_from(self, from: SlotNumber) -> Option<SlotNumber>
        decreases u64::MAX - from,
    {
        if from >= u64::MAX {
            None
        } else if !self.occupied(from) {
            Some(from)
        } else {
            self.free_from((from + 1) as u64)
        }
    }

    /// The slot a new proposal gets: the first free one, counting from 1.
    pub open spec fn free_slot(self) -> Option<SlotNumber> {
        self.free_from(1)
    }

    /// Whether `propose(c)` finds no slot: `c` is not decided yet, and no
    /// slot is free.
    pub open spec fn no_room(self, c: CommandView) -> bool {
        !self.decided(c) && self.free_slot() is None
    }

    /// The state after `propose(c)`: a command that is not decided yet takes
    /// the first free slot.
    pub open spec fn proposed(self, c: CommandView) -> ReplicaView {
        if self.decided(c) || self.free_slot() is None {
            self
        } else {
            ReplicaView { proposals: self.proposals.insert(self.free_slot()->0, c), ..self }
        }
    }

    /// What `propose(c)` sends: the proposal for the slot it took, to every
    /// leader.
    pub open spec fn proposal(self, c: CommandView, leaders: Seq<ProcessId>) -> Seq<
        WireMessageView,
    > {
        if self.decided(c) || self.free_slot() is None {
            Seq::empty()
        } else {
            broadcast_views(MessageView::Propose(self.me, self.free_slot()->0, c), leaders)
        }
    }

    /// Whether `perform(c)` executes `c`: it does unless `c` is the decision
    /// of a slot before the current one.
    pub open spec fn executes(self, c: CommandView) -> bool {
        !self.decided_before(c, self.slot)
    }

    /// The state after `perform`: the next slot is current.
    pub open spec fn performed(self) -> ReplicaView {
        ReplicaView { slot: (self.slot + 1) as u64, ..self }
    }

    /// Works through the decided slots from the current one on.
    ///
    /// For each: if this replica proposed another command for the slot, that
    /// command is proposed anew; then the decision is performed.
    pub open spec fn drain(self, leaders: Seq<ProcessId>) -> Drained
        decreases u64::MAX - self.slot,
    {
        if self.slot < u64::MAX && self.decisions.contains_key(self.slot) {
            let c = self.decisions[self.slot];
            let displaced = self.proposals.contains_key(self.slot) && self.proposals[self.slot] != c;
            let moved = if displaced {
                self.proposed(self.proposals[self.slot])
            } else {
                self
            };
            let sent = if displaced {
                self.proposal(self.proposals[self.slot], leaders)
            } else {
                Seq::empty()
            };
            let lost = displaced && self.no_room(self.proposals[self.slot]);
            let done = if moved.executes(c) {
                seq![c]
            } else {
                Seq::empty()
            };
            let rest = moved.performed().drain(leaders);
            Drained {
                state: rest.state,
                output: ReplicaOutputView {
                    sent: sent + rest.output.sent,
                    performed: done + rest.output.performed,
                },
                exhausted: lost || rest.exhausted,
            }
        } else {
            Drained {
                state: self,
                output: ReplicaOutputView { sent: Seq::empty(), performed: Seq::empty() },
                exhausted: false,
            }
        }
    }

    /// The replica with the decision `c` for slot `s` on record.
    pub open spec fn told(self, s: SlotNumber, c: CommandView) -> ReplicaView {
        ReplicaView { decisions: self.decisions.insert(s, c), ..self }
    }

    /// Why the replica refuses `m`, if it does.
    pub open spec fn refusal(self, m: MessageView, leaders: Seq<ProcessId>) -> Option<
        ProtocolError,
    > {
        match m {
            MessageView::Request(_, c) => if self.no_room(c) {
                Some(ProtocolError::SlotsExhausted)
            } else {
                None
            },
            MessageView::Decision(_, s, c) => if self.told(s, c).drain(leaders).exhausted {
                Some(ProtocolError::SlotsExhausted)
            } else {
                None
            },
            _ => Some(ProtocolError::UnexpectedMessage),
        }
    }

    /// The state after `m`. A request is proposed. A decision is put on
    /// record, and the decided slots are worked through.
    pub open spec fn next(self, m: MessageView, leaders: Seq<ProcessId>) -> ReplicaView {
        match m {
            MessageView::Request(_, c) => self.proposed(c),
            MessageView::Decision(_, s, c) => self.told(s, c).drain(leaders).state,
            _ => self,
        }
    }

    /// What the replica hands back for `m`, where it does not refuse it.
    pub open spec fn output(self, m: MessageView, leaders: Seq<ProcessId>) -> ReplicaOutputView {
        match m {
            MessageView::Request(_, c) => ReplicaOutputView {
                sent: self.proposal(c, leaders),
                performed: Seq::empty(),
            },
            MessageView::Decision(_, s, c) => self.told(s, c).drain(leaders).output,
            _ => ReplicaOutputView { sent: Seq::empty(), performed: Seq::empty() },
        }
    }
}

impl ReplicaView {
    /// `m` is a proposal of a command that this replica has among its
    /// proposals.
    pub open spec fn stands_behind(self, m: MessageView) -> bool {
        match m {
            MessageView::Propose(_, _, c) => exists|t: SlotNumber| #[trigger]
                self.proposals.contains_key(t) && self.proposals[t] == c,
            _ => false,
        }
    }

    /// `later` has every proposal of this state, and the same identifier.
    pub open spec fn keeps_proposals(self, later: ReplicaView) -> bool {
        &&& later.me == self.me
        &&& forall|t: SlotNumber| #[trigger]
            self.proposals.contains_key(t) ==> later.proposals.contains_key(t)
                && later.proposals[t] == self.proposals[t]
    }
}

/// The slot a search for a free slot finds is free.
pub proof fn lemma_free_slot_is_free(r: ReplicaView, from: SlotNumber)
    ensures
        r.free_from(from) matches Some(i) ==> !r.occupied(i) && from <= i < u64::MAX,
    decreases u64::MAX - from,
{
    if from < u64::MAX && r.occupied(from) {
        lemma_free_slot_is_free(r, (from + 1) as u64);
    }
}

/// A proposal overwrites nothing, and what is sent for it is a proposal of
/// a command the replica then has among its proposals.
pub proof fn lemma_proposed_keeps(r: ReplicaView, c: CommandView, leaders: Seq<ProcessId>)
    ensures
        r.keeps_proposals(r.proposed(c)),
        r.proposed(c).decisions == r.decisions,
        r.proposed(c).slot == r.slot,
        forall|w: WireMessageView| #[trigger]
            r.proposal(c, leaders).contains(w) ==> r.proposed(c).stands_behind(w.message),
{
    lemma_free_slot_is_free(r, 1);
    assert forall|w: WireMessageView| #[trigger]
        r.proposal(c, leaders).contains(w) implies r.proposed(c).stands_behind(w.message) by {
        let out = r.proposal(c, leaders);
        let i = choose|i: int| 0 <= i < out.len() && out[i] == w;
        let slot = r.free_slot()->0;
        assert(r.proposed(c).proposals.contains_key(slot));
    }
}

/// Working through the decided slots drops no proposal; every slot it goes
/// past is decided; and what it sends are proposals of commands the replica
/// has among its proposals in the end.
pub proof fn lemma_drain_keeps(r: ReplicaView, leaders: Seq<ProcessId>)
    ensures
        r.keeps_proposals(r.drain(leaders).state),
        forall|t: SlotNumber|
            r.slot <= t < r.drain(leaders).state.slot ==> #[trigger] r.decisions.contains_key(t),
        forall|w: WireMessageView| #[trigger]
            r.drain(leaders).output.sent.contains(w) ==> r.drain(leaders).state.stands_behind(
                w.message,
            ),
    decreases u64::MAX - r.slot,
{
    if r.slot < u64::MAX && r.decisions.contains_key(r.slot) {
        let c = r.decisions[r.slot];
        let displaced = r.proposals.contains_key(r.slot) && r.proposals[r.slot] != c;
        let moved = if displaced {
            r.proposed(r.proposals[r.slot])
        } else {
            r
        };
        let sent = if displaced {
            r.proposal(r.proposals[r.slot], leaders)
        } else {
            Seq::empty()
        };
        if displaced {
            lemma_proposed_keeps(r, r.proposals[r.slot], leaders);
        }
        let next = moved.performed();
        lemma_drain_keeps(next, leaders);
        let end = next.drain(leaders).state;
        let rest = next.drain(leaders).output.sent;
        assert forall|w: WireMessageView| #[trigger]
            r.drain(leaders).output.sent.contains(w) implies end.stands_behind(w.message) by {
            let all = sent + rest;
            let i = choose|i: int| 0 <= i < all.len() && all[i] == w;
            if i < sent.len() {
                assert(sent[i] == w);
                assert(sent.contains(w));
                assert(moved.stands_behind(w.message));
                match w.message {
                    MessageView::Propose(_, _, d) => {
                        let t = choose|t: SlotNumber| #[trigger]
                            moved.proposals.contains_key(t) && moved.proposals[t] == d;
                        assert(next.proposals.contains_key(t));
                        assert(end.proposals.contains_key(t));
                    },
                    _ => {},
                }
            } else {
                assert(rest[i - sent.len()] == w);
                assert(rest.contains(w));
            }
        }
        assert forall|t: SlotNumber| #[trigger]
            r.proposals.contains_key(t) implies end.proposals.contains_key(t) && end.proposals[t]
            == r.proposals[t] by {
            assert(moved.proposals.contains_key(t));
            assert(next.proposals.contains_key(t));
        }
    } else {
        assert forall|w: WireMessageView| #[trigger]
            r.drain(leaders).output.sent.contains(w) implies r.drain(
            leaders,
        ).state.stands_behind(w.message) by {
            let out = r.drain(leaders).output.sent;
            let i = choose|i: int| 0 <= i < out.len() && out[i] == w;
        }
    }
}

/// What a message does to a replica: it drops no proposal; every slot the
/// replica goes past is decided; what it sends are proposals of commands it
/// has among its proposals afterwards; and but for the decision a message
/// brings, what is decided stays as it is.
pub proof fn lemma_replica_step(r: ReplicaView, m: MessageView, leaders: Seq<ProcessId>)
    ensures
        r.keeps_proposals(r.next(m, leaders)),
        r.next(m, leaders).slot >= r.slot,
        forall|t: SlotNumber|
            r.slot <= t < r.next(m, leaders).slot ==> #[trigger] r.next(
                m,
                leaders,
            ).decisions.contains_key(t),
        forall|w: WireMessageView| #[trigger]
            r.output(m, leaders).sent.contains(w) ==> r.next(m, leaders).stands_behind(w.message),
        r.next(m, leaders).decisions == match m {
            MessageView::Decision(_, slot, c) => r.decisions.insert(slot, c),
            _ => r.decisions,
        },
{
    match m {
        MessageView::Request(_, c) => {
            lemma_proposed_keeps(r, c, leaders);
        },
        MessageView::Decision(_, slot, c) => {
            lemma_drain_keeps(r.told(slot, c), leaders);
            lemma_drain_settles(r.told(slot, c), leaders);
        },
        _ => {
            assert forall|w: WireMessageView| #[trigger]
                r.output(m, leaders).sent.contains(w) implies r.next(m, leaders).stands_behind(
                w.message,
            ) by {
                let out = r.output(m, leaders).sent;
                let i = choose|i: int| 0 <= i < out.len() && out[i] == w;
            }
        },
    }
}

/// Working through the decided slots changes neither what is decided nor
/// who the replica is, does not move the current slot back, and ends where
/// the current slot is not decided or is the last number there is.
pub proof fn lemma_drain_settles(r: ReplicaView, leaders: Seq<ProcessId>)
    ensures
        r.drain(leaders).state.decisions == r.decisions,
        r.drain(leaders).state.me == r.me,
        r.drain(leaders).state.slot >= r.slot,
        !(r.drain(leaders).state.slot < u64::MAX && r.decisions.contains_key(
            r.drain(leaders).state.slot,
        )),
    decreases u64::MAX - r.slot,
{
    if r.slot < u64::MAX && r.decisions.contains_key(r.slot) {
        let c = r.decisions[r.slot];
        let displaced = r.proposals.contains_key(r.slot) && r.proposals[r.slot] != c;
        let moved = if displaced {
            r.proposed(r.proposals[r.slot])
        } else {
            r
        };
        lemma_drain_settles(moved.performed(), leaders);
    }
}

/// Working through the decided slots executes no command twice, and none
/// that is the decision of a slot before the current one.
pub proof fn lemma_drain_performs_once(r: ReplicaView, leaders: Seq<ProcessId>)
    ensures
        r.drain(leaders).output.performed.no_duplicates(),
        forall|c: CommandView|
            r.decided_before(c, r.slot) ==> !(#[trigger] r.drain(leaders).output.performed.contains(
                c,
            )),
    decreases u64::MAX - r.slot,
{
    let all = r.drain(leaders).output.performed;
    if r.slot < u64::MAX && r.decisions.contains_key(r.slot) {
        let c = r.decisions[r.slot];
        let displaced = r.proposals.contains_key(r.slot) && r.proposals[r.slot] != c;
        let moved = if displaced {
            r.proposed(r.proposals[r.slot])
        } else {
            r
        };
        let next = moved.performed();
        let rest = next.drain(leaders).output.performed;
        lemma_drain_performs_once(next, leaders);
        assert(next.decisions == r.decisions);
        assert(next.decided_before(c, next.slot)) by {
            assert(next.decisions.contains_key(r.slot));
        }
        assert forall|x: CommandView| r.decided_before(x, r.slot) implies next.decided_before(
            x,
            next.slot,
        ) by {
            let s = choose|s: SlotNumber|
                s < r.slot && #[trigger] r.decisions.contains_key(s) && r.decisions[s] == x;
            assert(next.decisions.contains_key(s));
        }
        if moved.executes(c) {
            assert(all =~= seq![c] + rest);
            assert forall|i: int, j: int| 0 <= i < all.len() && 0 <= j < all.len() && i
                != j implies all[i] != all[j] by {
                if i == 0 {
                    assert(rest.contains(all[j])) by {
                        assert(rest[j - 1] == all[j]);
                    }
                } else if j == 0 {
                    assert(rest.contains(all[i])) by {
                        assert(rest[i - 1] == all[i]);
                    }
                } else {
                    assert(rest[i - 1] == all[i] && rest[j - 1] == all[j]);
                }
            }
            assert forall|x: CommandView| r.decided_before(x, r.slot) implies !(#[trigger] all.contains(
                x,
            )) by {
                if all.contains(x) {
                    let i = choose|i: int| 0 <= i < all.len() && all[i] == x;
                    if i > 0 {
                        assert(rest[i - 1] == x);
                        assert(rest.contains(x));
                    }
                }
            }
        } else {
            assert(all =~= rest);
        }
    } else {
        assert(all =~= Seq::<CommandView>::empty());
    }
}

/// A decision that comes twice counts once. Handling a decision executes no
/// command twice; and when the same decision for the same slot comes again,
/// from whomever, the replica stays as it is, sends nothing and executes
/// nothing.
pub proof fn lemma_decision_twice(
    r: ReplicaView,
    first_from: ProcessId,
    second_from: ProcessId,
    slot: SlotNumber,
    c: CommandView,
    leaders: Seq<ProcessId>,
)
    ensures
        r.output(MessageView::Decision(first_from, slot, c), leaders).performed.no_duplicates(),
        r.next(MessageView::Decision(first_from, slot, c), leaders).next(
            MessageView::Decision(second_from, slot, c),
            leaders,
        ) == r.next(MessageView::Decision(first_from, slot, c), leaders),
        r.next(MessageView::Decision(first_from, slot, c), leaders).output(
            MessageView::Decision(second_from, slot, c),
            leaders,
        ) == (ReplicaOutputView { sent: Seq::empty(), performed: Seq::empty() }),
        r.next(MessageView::Decision(first_from, slot, c), leaders).refusal(
            MessageView::Decision(second_from, slot, c),
            leaders,
        ) is None,
{
    let told = r.told(slot, c);
    lemma_drain_performs_once(told, leaders);
    lemma_drain_settles(told, leaders);
    let once = told.drain(leaders).state;
    assert(once.told(slot, c).decisions =~= once.decisions);
    assert(once.told(slot, c) == once);
}

impl View for Replica {
    type V = ReplicaView;

    closed spec fn view(&self) -> ReplicaView {
        ReplicaView {
            me: self.me,
            slot: self.slot,
            proposals: self.proposals@.map_values(|c: Command| c@),
            decisions: self.decisions@.map_values(|c: Command| c@),
        }
    }
}

/// Whether `c` is the value of some key of `m` that is less than `limit`.
fn holds_before(m: &HashMap<SlotNumber, Command>, c: &Command, limit: SlotNumber) -> (r: bool)
    ensures
        r == exists|s: SlotNumber| s < limit && #[trigger] m@.contains_key(s) && m@[s]@ == c@,
{
    let keys = ascending_keys(m);
    proof {
        lemma_ascending(m@.dom());
    }
    let mut i: usize = 0;
    while i < keys.len()
        invariant
            i <= keys.len(),
            keys@ == ascending(m@.dom()),
            forall|s: SlotNumber| #[trigger] keys@.contains(s) <==> m@.dom().contains(s),
            forall|j: int|
                0 <= j < i ==> !(keys@[j] < limit && m@.contains_key(#[trigger] keys@[j])
                    && m@[keys@[j]]@ == c@),
        decreases keys.len() - i,
    {
        let k = keys[i];
        assert(keys@.contains(k));
        if k < limit {
            match m.get(&k) {
                Some(v) => {
                    if *v == *c {
                        return true;
                    }
                },
                None => {},
            }
        }
        i += 1;
    }
    proof {
        assert forall|s: SlotNumber|
            !(s < limit && #[trigger] m@.contains_key(s) && m@[s]@ == c@) by {
            if m@.contains_key(s) {
                assert(keys@.contains(s));
                let j = choose|j: int| 0 <= j < keys@.len() && keys@[j] == s;
            }
        }
    }
    false
}

impl Replica {
    pub fn new(id: ProcessId) -> (r: Replica)
        ensures
            r@ == ReplicaView::initial(id),
    {
        let r = Replica { me: id, slot: 1, proposals: HashMap::new(), decisions: HashMap::new() };
        assert(r@.proposals =~= Map::empty());
        assert(r@.decisions =~= Map::empty());
        r
    }

    /// Gives `c` the first free slot and returns the proposal to send to the
    /// leaders of `cluster`, unless `c` is decided already. Fails, without a
    /// change, where no slot is free.
    pub fn propose(&mut self, c: Command, cluster: &Cluster) -> (r: Result<
        Vec<WireMessage>,
        ProtocolError,
    >)
        ensures
            final(self)@ == old(self)@.proposed(c@),
            match r {
                Ok(out) => {
                    &&& !old(self)@.no_room(c@)
                    &&& envelope_views(out@) == old(self)@.proposal(
                        c@,
                        cluster.members(ProcessType::Leader),
                    )
                },
                Err(e) => old(self)@.no_room(c@) && e == ProtocolError::SlotsExhausted,
            },
    {
        let at_last = match self.decisions.get(&u64::MAX) {
            Some(v) => *v == c,
            None => false,
        };
        let earlier = holds_before(&self.decisions, &c, u64::MAX);
        proof {
            if at_last {
                assert(self@.decisions.contains_key(u64::MAX));
            }
            if earlier {
                let s = choose|s: SlotNumber|
                    s < u64::MAX && #[trigger] self.decisions@.contains_key(s)
                        && self.decisions@[s]@ == c@;
                assert(self@.decisions.contains_key(s));
            }
            if self@.decided(c@) {
                let s = choose|s: SlotNumber| #[trigger]
                    self@.decisions.contains_key(s) && self@.decisions[s] == c@;
                assert(self.decisions@.contains_key(s));
                assert(at_last || earlier);
            }
        }
        if at_last || earlier {
            return Ok(Vec::new());
        }
        let mut i: SlotNumber = 1;
        while i < u64::MAX && (self.proposals.contains_key(&i) || self.decisions.contains_key(&i))
            invariant
                1 <= i,
                self@ == old(self)@,
                self@.free_slot() == self@.free_from(i),
            decreases u64::MAX - i,
        {
            assert(self@.occupied(i));
            i += 1;
        }
        if i == u64::MAX {
            return Err(ProtocolError::SlotsExhausted);
        }
        assert(!self@.occupied(i));
        let out = broadcast(&Message::Propose(self.me, i, c.clone()), &cluster.leaders());
        self.proposals.insert(i, c);
        assert(self@.proposals =~= old(self)@.proposals.insert(i, c@));
        Ok(out)
    }

    /// Performs the decision of the current slot, `c`, and moves on to the
    /// next slot. Returns whether `c` is to be executed: it is not where it
    /// was decided for an earlier slot too.
    pub fn perform(&mut self, c: Command) -> (execute: bool)
        requires
            old(self)@.slot < u64::MAX,
        ensures
            execute == old(self)@.executes(c@),
            final(self)@ == old(self)@.performed(),
    {
        let seen = holds_before(&self.decisions, &c, self.slot);
        proof {
            if seen {
                let s = choose|s: SlotNumber|
                    s < self.slot && #[trigger] self.decisions@.contains_key(s)
                        && self.decisions@[s]@ == c@;
                assert(self@.decisions.contains_key(s));
            }
            if self@.decided_before(c@, self.slot) {
                let s = choose|s: SlotNumber|
                    s < self.slot && #[trigger] self@.decisions.contains_key(s)
                        && self@.decisions[s] == c@;
                assert(self.decisions@.contains_key(s));
            }
        }
        self.slot = self.slot + 1;
        !seen
    }

    /// Handles one message: a request is proposed; a decision is put on
    /// record, and the decided slots are worked through. Returns what to
    /// send and what to execute.
    pub fn exec(&mut self, msg: Message, cluster: &Cluster) -> (r: Result<
        ReplicaOutput,
        ProtocolError,
    >)
        ensures
            final(self)@ == old(self)@.next(msg@, cluster.members(ProcessType::Leader)),
            match r {
                Ok(out) => {
                    &&& old(self)@.refusal(msg@, cluster.members(ProcessType::Leader)) is None
                    &&& out@ == old(self)@.output(msg@, cluster.members(ProcessType::Leader))
                },
                Err(e) => old(self)@.refusal(msg@, cluster.members(ProcessType::Leader)) == Some(
                    e,
                ),
            },
    {
        let ghost leaders = cluster.members(ProcessType::Leader);
        match msg {
            Message::Request(_, command) => {
                match self.propose(command, cluster) {
                    Ok(sent) => {
                        let out = ReplicaOutput { sent, performed: Vec::new() };
                        assert(out@.performed =~= Seq::empty());
                        Ok(out)
                    },
                    Err(e) => Err(e),
                }
            },
            Message::Decision(_, slot, command) => {
                self.decisions.insert(slot, command);
                assert(self@.decisions =~= old(self)@.decisions.insert(slot, command@));
                let ghost told = self@;
                let mut out = ReplicaOutput { sent: Vec::new(), performed: Vec::new() };
                let mut exhausted = false;
                assert(out@.sent =~= Seq::empty() && out@.performed =~= Seq::empty());
                assert(told.drain(leaders).output.sent =~= out@.sent + self@.drain(
                    leaders,
                ).output.sent);
                assert(told.drain(leaders).output.performed =~= out@.performed + self@.drain(
                    leaders,
                ).output.performed);
                while self.slot < u64::MAX && self.decisions.contains_key(&self.slot)
                    invariant
                        leaders == cluster.members(ProcessType::Leader),
                        told.drain(leaders).state == self@.drain(leaders).state,
                        told.drain(leaders).output.sent == out@.sent + self@.drain(
                            leaders,
                        ).output.sent,
                        told.drain(leaders).output.performed == out@.performed + self@.drain(
                            leaders,
                        ).output.performed,
                        told.drain(leaders).exhausted == (exhausted || self@.drain(
                            leaders,
                        ).exhausted),
                    decreases u64::MAX - self.slot,
                {
                    let ghost here = self@;
                    let ghost before = out@;
                    assert(here.decisions.contains_key(here.slot));
                    let c = match self.decisions.get(&self.slot) {
                        Some(c) => c.clone(),
                        None => unreached(),
                    };
                    let displaced = match self.proposals.get(&self.slot) {
                        Some(p) => if *p != c {
                            Some(p.clone())
                        } else {
                            None
                        },
                        None => None,
                    };
                    let ghost piece = if displaced is Some {
                        here.proposal(here.proposals[here.slot], leaders)
                    } else {
                        Seq::empty()
                    };
                    match displaced {
                        Some(p) => {
                            match self.propose(p, cluster) {
                                Ok(mut sent) => {
                                    let ghost more = envelope_views(sent@);
                                    out.sent.append(&mut sent);
                                    assert(out@.sent =~= before.sent + more);
                                },
                                Err(_) => {
                                    exhausted = true;
                                    assert(piece =~= Seq::empty());
                                },
                            }
                        },
                        None => {},
                    }
                    assert(out@.sent =~= before.sent + piece);
                    let ghost moved = self@;
                    if self.perform(c.clone()) {
                        out.performed.push(c);
                        assert(out@.performed =~= before.performed + seq![c@]);
                    } else {
                        assert(out@.performed =~= before.performed + Seq::<CommandView>::empty());
                    }
                    proof {
                        let rest = self@.drain(leaders);
                        let all = here.drain(leaders);
                        assert(self@ == moved.performed());
                        assert(all.state == rest.state);
                        assert(all.output.sent =~= piece + rest.output.sent);
                        assert(told.drain(leaders).output.sent =~= out@.sent + rest.output.sent);
                        assert(told.drain(leaders).output.performed =~= out@.performed
                            + rest.output.performed);
                    }
                }
                proof {
                    let rest = self@.drain(leaders);
                    assert(rest.state == self@);
                    assert(told.drain(leaders).output.sent =~= out@.sent);
                    assert(told.drain(leaders).output.performed =~= out@.performed);
                }
                if exhausted {
                    Err(ProtocolError::SlotsExhausted)
                } else {
                    Ok(out)
                }
            },
            _ => Err(ProtocolError::UnexpectedMessage),
        }
    }

    /// The next slot to perform.
    pub fn slot(&self) -> (s: SlotNumber)
        ensures
            s == self@.slot,
    {
        self.slot
    }

    /// This replica's identifier.
    pub fn me(&self) -> (id: ProcessId)
        ensures
            id == self@.me,
    {
        self.me
    }

    /// The decision on record for `slot`, if there is one.
    pub fn decision(&self, slot: SlotNumber) -> (r: Option<&Command>)
        ensures
            match r {
                Some(c) => self@.decisions.contains_key(slot) && c@ == self@.decisions[slot],
                None => !self@.decisions.contains_key(slot),
            },
    {
        self.decisions.get(&slot)
    }

    /// The command this replica proposed for `slot`, if it proposed one.
    pub fn proposal(&self, slot: SlotNumber) -> (r: Option<&Command>)
        ensures
            match r {
                Some(c) => self@.proposals.contains_key(slot) && c@ == self@.proposals[slot],
                None => !self@.proposals.contains_key(slot),
            },
    {
        self.proposals.get(&slot)
    }
}

} // verus!
