//! The leader and its two kinds of worker: the scout, which wins a ballot,
//! and the commander, which drives one command to a decision under it.

use crate::ds::{accepted_merge, ascending, ascending_keys, lemma_ascending,
    lemma_ascending_unique, strictly_ascending, Accepted};
use crate::env::{Cluster, IdSet, ProcessId, ProcessType};
use crate::message::{broadcast, broadcast_views, envelope_views, Message, MessageView,
    ProtocolError, WireMessage, WireMessageView};
use crate::pval::{lemma_ballot_order_total, BallotNumber, Command, CommandView, PValueView,
    SlotNumber};
use std::collections::HashMap;
use vstd::prelude::*;
use vstd::std_specs::hash::*;

verus! {

broadcast use group_hash_axioms;

/// How far a proposal has come.
#[derive(Clone, Copy, Debug, PartialEq, Eq, Structural)]
pub enum Status {
    /// A commander has announced the slot as decided.
    Done,
    /// Not known to be decided.
    Pending,
}

/// A leader's proposal for one slot.
pub struct Proposal {
    command: Command,
    status: Status,
}

/// What a proposal is.
pub struct ProposalView {
    pub command: CommandView,
    pub status: Status,
}

impl View for Proposal {
    type V = ProposalView;

    closed spec fn view(&self) -> ProposalView {
        ProposalView { command: self.command@, status: self.status }
    }
}

/// Work a leader hands to its host: start a worker with a fresh identifier.
#[derive(Debug, PartialEq, Eq)]
pub enum Spawn {
    /// Start a scout for this ballot.
    Scout(BallotNumber),
    /// Start a commander for this ballot, slot and command.
    Commander(BallotNumber, SlotNumber, Command),
}

/// What a request for a worker is.
pub enum SpawnView {
    Scout(BallotNumber),
    Commander(BallotNumber, SlotNumber, CommandView),
}

impl View for Spawn {
    type V = SpawnView;

    open spec fn view(&self) -> SpawnView {
        match self {
            Spawn::Scout(b) => SpawnView::Scout(*b),
            Spawn::Commander(b, s, c) => SpawnView::Commander(*b, *s, c@),
        }
    }
}

/// The views of a list of requests for workers, in order.
pub open spec fn spawn_views(out: Seq<Spawn>) -> Seq<SpawnView> {
    out.map_values(|w: Spawn| w@)
}

/// A leader's state.
pub struct Leader {
    me: ProcessId,
    ballot: BallotNumber,
    active: bool,
    proposals: HashMap<SlotNumber, Proposal>,
}

/// What a leader's state is.
pub struct LeaderView {
    pub me: ProcessId,
    /// The ballot the leader currently works under.
    pub ballot: BallotNumber,
    /// Whether a majority has promised that ballot.
    pub active: bool,
    pub proposals: Map<SlotNumber, ProposalView>,
}

impl LeaderView {
    /// The state of a leader that has seen no message.
    pub open spec fn initial(me: ProcessId) -> LeaderView {
        LeaderView {
            me,
            ballot: BallotNumber { round: 0, process_id: me },
            active: false,
            proposals: Map::empty(),
        }
    }

    /// The proposals after the p-values `vals` were adopted: each slot of
    /// `vals` now proposes the command of its p-value, as pending.
    pub open spec fn adopted(self, vals: Map<SlotNumber, PValueView>) -> Map<
        SlotNumber,
        ProposalView,
    > {
        Map::new(
            |s: SlotNumber| self.proposals.contains_key(s) || vals.contains_key(s),
            |s: SlotNumber|
                if vals.contains_key(s) {
                    ProposalView { command: vals[s].command, status: Status::Pending }
                } else {
                    self.proposals[s]
                },
        )
    }

    /// The ballot a leader moves to when `seen` has overtaken it.
    pub open spec fn successor(self, seen: BallotNumber) -> BallotNumber {
        BallotNumber { round: (seen.round + 1) as u64, process_id: self.me }
    }

    /// Why the leader refuses `m`, if it does.
    pub open spec fn refusal(self, m: MessageView) -> Option<ProtocolError> {
        match m {
            MessageView::Propose(_, _, _) => None,
            MessageView::Adopt(_, _, _) => None,
            MessageView::Preempt(_, b) => if self.ballot.below(b) && b.round == u64::MAX {
                Some(ProtocolError::RoundOverflow)
            } else {
                None
            },
            MessageView::Decision(_, s, _) => if self.proposals.contains_key(s) {
                None
            } else {
                Some(ProtocolError::UnknownSlot)
            },
            _ => Some(ProtocolError::UnexpectedMessage),
        }
    }

    /// The state after `m`, for a message that is not refused.
    pub open spec fn next(self, m: MessageView) -> LeaderView {
        match m {
            MessageView::Propose(_, s, c) => if self.proposals.contains_key(s) {
                self
            } else {
                LeaderView {
                    proposals: self.proposals.insert(
                        s,
                        ProposalView { command: c, status: Status::Pending },
                    ),
                    ..self
                }
            },
            MessageView::Adopt(_, b, vals) => if b == self.ballot {
                LeaderView { proposals: self.adopted(vals), active: true, ..self }
            } else {
                self
            },
            MessageView::Preempt(_, b) => if self.ballot.below(b) {
                LeaderView { ballot: self.successor(b), active: false, ..self }
            } else {
                self
            },
            MessageView::Decision(_, s, _) => LeaderView {
                proposals: self.proposals.insert(
                    s,
                    ProposalView { command: self.proposals[s].command, status: Status::Done },
                ),
                ..self
            },
            _ => self,
        }
    }

    /// The slots of `proposals` that are pending.
    pub open spec fn pending(proposals: Map<SlotNumber, ProposalView>) -> Set<SlotNumber> {
        Set::new(|s: SlotNumber| proposals.contains_key(s) && proposals[s].status == Status::Pending)
    }

    /// The commanders to start when ballot `b` has just been adopted: one
    /// for every pending proposal, in ascending order of slot.
    pub open spec fn replay(b: BallotNumber, proposals: Map<SlotNumber, ProposalView>) -> Seq<
        SpawnView,
    > {
        ascending(Self::pending(proposals)).map_values(
            |s: SlotNumber| SpawnView::Commander(b, s, proposals[s].command),
        )
    }

    /// The workers to start in answer to `m`, for a message that is not
    /// refused.
    pub open spec fn spawns(self, m: MessageView) -> Seq<SpawnView> {
        match m {
            MessageView::Propose(_, s, c) => if !self.proposals.contains_key(s) && self.active {
                seq![SpawnView::Commander(self.ballot, s, c)]
            } else {
                Seq::empty()
            },
            MessageView::Adopt(_, b, vals) => if b == self.ballot {
                Self::replay(self.ballot, self.adopted(vals))
            } else {
                Seq::empty()
            },
            MessageView::Preempt(_, b) => if self.ballot.below(b) {
                seq![SpawnView::Scout(self.successor(b))]
            } else {
                Seq::empty()
            },
            _ => Seq::empty(),
        }
    }
}

/// A preempted leader moves up: when a leader learns of a ballot above its
/// own, it goes inactive and asks for a scout at a ballot of its own that
/// is in a strictly higher round than the one it learnt of, and so above
/// both that one and the one it held.
pub proof fn lemma_preempted_leader_moves_up(l: LeaderView, from: ProcessId, seen: BallotNumber)
    requires
        l.ballot.below(seen),
        seen.round < u64::MAX,
    ensures
        l.refusal(MessageView::Preempt(from, seen)) is None,
        l.next(MessageView::Preempt(from, seen)).ballot.round > seen.round,
        l.next(MessageView::Preempt(from, seen)).ballot.process_id == l.me,
        seen.below(l.next(MessageView::Preempt(from, seen)).ballot),
        l.ballot.below(l.next(MessageView::Preempt(from, seen)).ballot),
        !l.next(MessageView::Preempt(from, seen)).active,
        l.spawns(MessageView::Preempt(from, seen)) == seq![
            SpawnView::Scout(l.next(MessageView::Preempt(from, seen)).ballot),
        ],
{
    lemma_ballot_order_total(l.ballot, seen);
}

/// A leader pays no attention to a preemption by a ballot that is not above
/// its own.
pub proof fn lemma_stale_preemption_is_ignored(l: LeaderView, from: ProcessId, seen: BallotNumber)
    requires
        !l.ballot.below(seen),
    ensures
        l.refusal(MessageView::Preempt(from, seen)) is None,
        l.next(MessageView::Preempt(from, seen)) == l,
        l.spawns(MessageView::Preempt(from, seen)) == Seq::<SpawnView>::empty(),
{
}

impl View for Leader {
    type V = LeaderView;

    closed spec fn view(&self) -> LeaderView {
        LeaderView {
            me: self.me,
            ballot: self.ballot,
            active: self.active,
            proposals: self.proposals@.map_values(|p: Proposal| p@),
        }
    }
}

impl Leader {
    pub fn new(me: ProcessId) -> (l: Leader)
        ensures
            l@ == LeaderView::initial(me),
    {
        let l = Leader {
            me,
            ballot: BallotNumber::first(me),
            active: false,
            proposals: HashMap::new(),
        };
        assert(l@.proposals =~= Map::empty());
        l
    }

    /// What a leader does first: it asks for a scout for its ballot.
    pub fn start(&self) -> (w: Spawn)
        ensures
            w@ == SpawnView::Scout(self@.ballot),
    {
        Spawn::Scout(self.ballot)
    }

    /// Handles one message and returns the workers to start. A refused
    /// message leaves the state as it was.
    pub fn exec(&mut self, msg: Message) -> (r: Result<Vec<Spawn>, ProtocolError>)
        ensures
            match r {
                Ok(out) => {
                    &&& old(self)@.refusal(msg@) is None
                    &&& final(self)@ == old(self)@.next(msg@)
                    &&& spawn_views(out@) == old(self)@.spawns(msg@)
                },
                Err(e) => {
                    &&& old(self)@.refusal(msg@) == Some(e)
                    &&& final(self)@ == old(self)@
                },
            },
    {
        let mut out: Vec<Spawn> = Vec::new();
        match msg {
            Message::Propose(_, slot, command) => {
                if !self.proposals.contains_key(&slot) {
                    if self.active {
                        out.push(Spawn::Commander(self.ballot, slot, command.clone()));
                    }
                    self.proposals.insert(slot, Proposal { command, status: Status::Pending });
                    assert(self@.proposals =~= old(self)@.next(msg@).proposals);
                }
                assert(spawn_views(out@) =~= old(self)@.spawns(msg@));
                Ok(out)
            },
            Message::Adopt(_, ballot, values) => {
                if self.ballot == ballot {
                    self.adopt(&values);
                    let out = self.replay();
                    self.active = true;
                    Ok(out)
                } else {
                    assert(spawn_views(out@) =~= old(self)@.spawns(msg@));
                    Ok(out)
                }
            },
            Message::Preempt(_, ballot) => {
                if self.ballot < ballot {
                    if ballot.round == u64::MAX {
                        return Err(ProtocolError::RoundOverflow);
                    }
                    self.ballot = BallotNumber::new(ballot.round + 1, self.me);
                    self.active = false;
                    out.push(Spawn::Scout(self.ballot));
                }
                assert(spawn_views(out@) =~= old(self)@.spawns(msg@));
                Ok(out)
            },
            Message::Decision(_, slot, _) => {
                let command = match self.proposals.get(&slot) {
                    Some(p) => p.command.clone(),
                    None => {
                        return Err(ProtocolError::UnknownSlot);
                    },
                };
                self.proposals.insert(slot, Proposal { command, status: Status::Done });
                assert(self@.proposals =~= old(self)@.next(msg@).proposals);
                assert(spawn_views(out@) =~= old(self)@.spawns(msg@));
                Ok(out)
            },
            _ => Err(ProtocolError::UnexpectedMessage),
        }
    }

    /// A scout for the current ballot, with the identifier made of this
    /// leader's address and the fresh instance number `id`.
    pub fn scout(&self, id: u32) -> (s: Scout)
        ensures
            s@ == ScoutView::initial(
                ProcessId { ip: self@.me.ip, port: self@.me.port, id },
                self@.me,
                self@.ballot,
            ),
    {
        Scout::new(ProcessId::new(self.me.ip, self.me.port, id), self.me, self.ballot)
    }

    /// A commander for `ballot`, `slot` and `command`, with the identifier
    /// made of this leader's address and the fresh instance number `id`.
    pub fn commander(
        &self,
        ballot: BallotNumber,
        slot: SlotNumber,
        command: Command,
        id: u32,
    ) -> (c: Commander)
        ensures
            c@ == CommanderView::initial(
                ProcessId { ip: self@.me.ip, port: self@.me.port, id },
                self@.me,
                ballot,
                slot,
                command@,
            ),
    {
        let cid = ProcessId::new(self.me.ip, self.me.port, id);
        Commander::new(&cid, &self.me, ballot, slot, command)
    }

    /// This leader's identifier.
    pub fn me(&self) -> (id: ProcessId)
        ensures
            id == self@.me,
    {
        self.me
    }

    /// The ballot the leader currently works under.
    pub fn ballot(&self) -> (b: BallotNumber)
        ensures
            b == self@.ballot,
    {
        self.ballot
    }

    /// Whether a majority has promised the current ballot.
    pub fn active(&self) -> (a: bool)
        ensures
            a == self@.active,
    {
        self.active
    }

    /// The proposal for `slot`, if there is one: its command, and how far
    /// it has come.
    pub fn proposal(&self, slot: SlotNumber) -> (r: Option<(&Command, Status)>)
        ensures
            match r {
                Some((c, status)) => self@.proposals.contains_key(slot) && self@.proposals[slot]
                    == (ProposalView { command: c@, status }),
                None => !self@.proposals.contains_key(slot),
            },
    {
        match self.proposals.get(&slot) {
            Some(p) => Some((&p.command, p.status)),
            None => None,
        }
    }

    /// Takes over the p-values of `values`.
    fn adopt(&mut self, values: &Accepted)
        ensures
            final(self)@ == (LeaderView { proposals: old(self)@.adopted(values@), ..old(self)@ }),
    {
        let slots = values.slots();
        proof {
            lemma_ascending(values@.dom());
        }
        let mut i: usize = 0;
        while i < slots.len()
            invariant
                i <= slots.len(),
                slots@ == ascending(values@.dom()),
                forall|s: SlotNumber| #[trigger] slots@.contains(s) <==> values@.contains_key(s),
                self.me == old(self).me,
                self.ballot == old(self).ballot,
                self.active == old(self).active,
                forall|s: SlotNumber| #[trigger]
                    self@.proposals.contains_key(s) <==> old(self)@.proposals.contains_key(s)
                        || slots@.take(i as int).contains(s),
                forall|s: SlotNumber| #[trigger]
                    self@.proposals.contains_key(s) ==> self@.proposals[s] == if slots@.take(
                        i as int,
                    ).contains(s) {
                        old(self)@.adopted(values@)[s]
                    } else {
                        old(self)@.proposals[s]
                    },
            decreases slots.len() - i,
        {
            let s = slots[i];
            assert(slots@.contains(s));
            let ghost done = slots@.take(i as int);
            let ghost grown = slots@.take(i + 1);
            let ghost before = self@.proposals;
            match values.get(s) {
                Some(p) => {
                    self.proposals.insert(
                        s,
                        Proposal { command: p.command.clone(), status: Status::Pending },
                    );
                },
                None => {},
            }
            proof {
                assert(self@.proposals =~= before.insert(s, old(self)@.adopted(values@)[s]));
                assert forall|x: SlotNumber| grown.contains(x) <==> done.contains(x) || x
                    == s by {
                    if grown.contains(x) {
                        let j = choose|j: int| 0 <= j < grown.len() && grown[j] == x;
                        if j < i {
                            assert(done[j] == x);
                        }
                    }
                    if done.contains(x) {
                        let j = choose|j: int| 0 <= j < done.len() && done[j] == x;
                        assert(grown[j] == x);
                    }
                    if x == s {
                        assert(grown[i as int] == x);
                    }
                }
            }
            i += 1;
        }
        proof {
            assert(slots@.take(i as int) =~= slots@);
            assert(self@.proposals =~= old(self)@.adopted(values@));
        }
    }

    /// One commander at the current ballot for every pending proposal.
    fn replay(&self) -> (out: Vec<Spawn>)
        ensures
            spawn_views(out@) == LeaderView::replay(self@.ballot, self@.proposals),
    {
        let slots = ascending_keys(&self.proposals);
        let ghost views = self@.proposals;
        let ghost wanted = LeaderView::pending(views);
        let ghost mut listed: Seq<SlotNumber> = Seq::empty();
        let mut out: Vec<Spawn> = Vec::new();
        proof {
            lemma_ascending(self.proposals@.dom());
            assert(views.dom() =~= self.proposals@.dom());
        }
        let mut i: usize = 0;
        while i < slots.len()
            invariant
                i <= slots.len(),
                views == self@.proposals,
                wanted == LeaderView::pending(views),
                slots@ == ascending(views.dom()),
                strictly_ascending(slots@),
                forall|s: SlotNumber| #[trigger] slots@.contains(s) <==> views.contains_key(s),
                strictly_ascending(listed),
                forall|s: SlotNumber| #[trigger]
                    listed.contains(s) <==> wanted.contains(s) && slots@.take(i as int).contains(
                        s,
                    ),
                out@.len() == listed.len(),
                forall|j: int|
                    0 <= j < listed.len() ==> (#[trigger] out@[j])@ == SpawnView::Commander(
                        self@.ballot,
                        listed[j],
                        views[listed[j]].command,
                    ),
            decreases slots.len() - i,
        {
            let s = slots[i];
            assert(slots@.contains(s));
            let ghost done = slots@.take(i as int);
            let ghost grown = slots@.take(i + 1);
            let ghost before = listed;
            proof {
                assert forall|x: SlotNumber| grown.contains(x) <==> done.contains(x) || x
                    == s by {
                    if grown.contains(x) {
                        let j = choose|j: int| 0 <= j < grown.len() && grown[j] == x;
                        if j < i {
                            assert(done[j] == x);
                        }
                    }
                    if done.contains(x) {
                        let j = choose|j: int| 0 <= j < done.len() && done[j] == x;
                        assert(grown[j] == x);
                    }
                    if x == s {
                        assert(grown[i as int] == x);
                    }
                }
                assert forall|x: SlotNumber| done.contains(x) implies x < s by {
                    let j = choose|j: int| 0 <= j < done.len() && done[j] == x;
                    assert(slots@[j] == x);
                }
            }
            match self.proposals.get(&s) {
                Some(p) => {
                    if p.status == Status::Pending {
                        out.push(Spawn::Commander(self.ballot, s, p.command.clone()));
                        proof {
                            listed = listed.push(s);
                            assert forall|a: int, b: int| 0 <= a < b < listed.len() implies listed[a]
                                < listed[b] by {
                                if b == before.len() {
                                    assert(before.contains(before[a]));
                                }
                            }
                            assert forall|x: SlotNumber| #[trigger]
                                listed.contains(x) <==> wanted.contains(x) && grown.contains(
                                    x,
                                ) by {
                                if listed.contains(x) {
                                    let j = choose|j: int| 0 <= j < listed.len() && listed[j] == x;
                                    if j < before.len() {
                                        assert(before[j] == x);
                                        assert(before.contains(x));
                                    }
                                }
                                if wanted.contains(x) && grown.contains(x) {
                                    if x == s {
                                        assert(listed[before.len() as int] == x);
                                    } else {
                                        assert(before.contains(x));
                                        let j = choose|j: int|
                                            0 <= j < before.len() && before[j] == x;
                                        assert(listed[j] == x);
                                    }
                                }
                            }
                        }
                    }
                },
                None => {},
            }
            i += 1;
        }
        proof {
            assert(slots@.take(i as int) =~= slots@);
            assert forall|x: SlotNumber| #[trigger]
                listed.contains(x) <==> wanted.contains(x) && x < 0x1_0000_0000_0000_0000 by {}
            lemma_ascending_unique(listed, wanted, 0x1_0000_0000_0000_0000);
            assert(spawn_views(out@) =~= LeaderView::replay(self@.ballot, views));
        }
        out
    }
}

/// Where a one-shot worker stands.
#[derive(Clone, Copy, Debug, PartialEq, Eq, Structural)]
pub enum Phase {
    /// Made, but it has sent nothing yet.
    Created,
    /// It has sent its requests and counts the answers.
    Waiting,
    /// It has told its leader the outcome; whatever comes now is ignored.
    Finished,
}

/// The majority rule of both phases: of `total` acceptors, strictly fewer
/// than half still owe an answer.
pub open spec fn majority_answered(wait: Set<ProcessId>, total: nat) -> bool {
    2 * wait.len() < total
}

/// With one acceptor the majority is that acceptor: nothing is settled while
/// it owes its answer, and all is settled once it has answered.
pub proof fn lemma_majority_of_one(a: ProcessId)
    ensures
        !majority_answered(seq![a].to_set(), 1),
        majority_answered(seq![a].to_set().remove(a), 1),
{
    let only = seq![a].to_set();
    assert(only =~= Set::empty().insert(a)) by {
        assert(seq![a][0] == a);
    }
    assert(only.remove(a) =~= Set::empty());
}

/// With two acceptors the majority is both: as long as either of them owes
/// its answer, nothing is settled.
pub proof fn lemma_majority_of_two(wait: Set<ProcessId>)
    requires
        wait.finite(),
    ensures
        majority_answered(wait, 2) <==> wait == Set::<ProcessId>::empty(),
{
    if wait.len() == 0 {
        assert(wait =~= Set::empty());
    }
}

/// Any two majorities of the same acceptors share an acceptor: if of the
/// acceptors `all`, fewer than half are in `first` and fewer than half are
/// in `second`, then some acceptor is in neither.
pub proof fn lemma_majorities_meet(all: Set<ProcessId>, first: Set<ProcessId>, second: Set<ProcessId>)
    requires
        all.finite(),
        first.subset_of(all),
        second.subset_of(all),
        majority_answered(first, all.len()),
        majority_answered(second, all.len()),
    ensures
        exists|a: ProcessId| all.contains(a) && !first.contains(a) && !second.contains(a),
{
    let both = first.union(second);
    vstd::set_lib::lemma_len_subset(first, all);
    vstd::set_lib::lemma_len_subset(second, all);
    vstd::set_lib::lemma_len_union(first, second);
    assert(both.len() < all.len());
    assert(both.subset_of(all));
    if forall|a: ProcessId| all.contains(a) ==> first.contains(a) || second.contains(a) {
        assert(all =~= both);
    }
}

/// A scout: it asks every acceptor to promise one ballot.
pub struct Scout {
    me: ProcessId,
    leader: ProcessId,
    ballot: BallotNumber,
    phase: Phase,
    total: usize,
    wait: IdSet,
    values: Accepted,
}

/// What a scout's state is.
pub struct ScoutView {
    pub me: ProcessId,
    pub leader: ProcessId,
    pub ballot: BallotNumber,
    pub phase: Phase,
    /// How many acceptors the directory listed when the scout started.
    pub total: nat,
    /// The acceptors that have not answered yet.
    pub wait: Set<ProcessId>,
    /// The per-slot maximum of the p-values in the answers counted so far.
    pub values: Map<SlotNumber, PValueView>,
}

impl ScoutView {
    /// A scout that has not started.
    pub open spec fn initial(me: ProcessId, leader: ProcessId, ballot: BallotNumber) -> ScoutView {
        ScoutView {
            me,
            leader,
            ballot,
            phase: Phase::Created,
            total: 0,
            wait: Set::empty(),
            values: Map::empty(),
        }
    }

    /// The scout once it waits for all of `acceptors`.
    pub open spec fn waiting_for(self, acceptors: Seq<ProcessId>) -> ScoutView {
        ScoutView {
            phase: Phase::Waiting,
            total: acceptors.len(),
            wait: acceptors.to_set(),
            ..self
        }
    }

    /// A waiting scout finishes as soon as a majority has answered.
    pub open spec fn settled(self) -> ScoutView {
        if majority_answered(self.wait, self.total) {
            ScoutView { phase: Phase::Finished, ..self }
        } else {
            self
        }
    }

    /// What a waiting scout tells its leader when it settles: the adoption of its
    /// ballot with all it gathered, once a majority has answered.
    pub open spec fn verdict(self) -> Seq<WireMessageView> {
        if majority_answered(self.wait, self.total) {
            seq![
                WireMessageView {
                    to: self.leader,
                    message: MessageView::Adopt(self.me, self.ballot, self.values),
                },
            ]
        } else {
            Seq::empty()
        }
    }

    /// The state after the scout was started with the acceptors of the
    /// directory. Starting a scout twice changes nothing.
    pub open spec fn started(self, acceptors: Seq<ProcessId>) -> ScoutView {
        if self.phase == Phase::Created {
            self.waiting_for(acceptors).settled()
        } else {
            self
        }
    }

    /// What a scout sends when it is started: its ballot to every acceptor
    /// listed, and its verdict if it can settle at once.
    pub open spec fn opening(self, acceptors: Seq<ProcessId>) -> Seq<WireMessageView> {
        if self.phase == Phase::Created {
            broadcast_views(MessageView::P1A(self.me, self.ballot), acceptors)
                + self.waiting_for(acceptors).verdict()
        } else {
            Seq::empty()
        }
    }

    /// A waiting scout takes phase-1 answers and nothing else. One that is
    /// not waiting takes anything, and ignores it.
    pub open spec fn handles(self, m: MessageView) -> bool {
        self.phase != Phase::Waiting || m is P1B
    }

    /// The scout after it counted the answer of `pid`, which came with
    /// `accepted`. An answer from a process it does not wait for is not
    /// counted.
    pub open spec fn heard(self, pid: ProcessId, accepted: Map<SlotNumber, PValueView>) -> ScoutView {
        if self.wait.contains(pid) {
            ScoutView {
                wait: self.wait.remove(pid),
                values: accepted_merge(self.values, accepted),
                ..self
            }
        } else {
            self
        }
    }

    /// The state after `m`, for a message the scout handles.
    pub open spec fn next(self, m: MessageView) -> ScoutView {
        if self.phase != Phase::Waiting {
            self
        } else {
            match m {
                MessageView::P1B(pid, b, accepted) => if b != self.ballot {
                    ScoutView { phase: Phase::Finished, ..self }
                } else {
                    self.heard(pid, accepted).settled()
                },
                _ => self,
            }
        }
    }

    /// What the scout sends in answer to `m`, for a message it handles: a
    /// preemption if the answer names another ballot, else its verdict.
    pub open spec fn output(self, m: MessageView) -> Seq<WireMessageView> {
        if self.phase != Phase::Waiting {
            Seq::empty()
        } else {
            match m {
                MessageView::P1B(pid, b, accepted) => if b != self.ballot {
                    seq![
                        WireMessageView {
                            to: self.leader,
                            message: MessageView::Preempt(self.me, b),
                        },
                    ]
                } else {
                    self.heard(pid, accepted).verdict()
                },
                _ => Seq::empty(),
            }
        }
    }
}

impl View for Scout {
    type V = ScoutView;

    closed spec fn view(&self) -> ScoutView {
        ScoutView {
            me: self.me,
            leader: self.leader,
            ballot: self.ballot,
            phase: self.phase,
            total: self.total as nat,
            wait: self.wait@,
            values: self.values@,
        }
    }
}

impl Scout {
    pub fn new(id: ProcessId, leader: ProcessId, ballot: BallotNumber) -> (s: Scout)
        ensures
            s@ == ScoutView::initial(id, leader, ballot),
    {
        let s = Scout {
            me: id,
            leader,
            ballot,
            phase: Phase::Created,
            total: 0,
            wait: IdSet::new(),
            values: Accepted::new(),
        };
        s
    }

    /// Starts the scout: it asks every acceptor of `cluster` for a promise.
    /// Returns the messages to send.
    pub fn start(&mut self, cluster: &Cluster) -> (out: Vec<WireMessage>)
        ensures
            final(self)@ == old(self)@.started(cluster.members(ProcessType::Acceptor)),
            envelope_views(out@) == old(self)@.opening(cluster.members(ProcessType::Acceptor)),
    {
        if self.phase != Phase::Created {
            return Vec::new();
        }
        let acceptors = cluster.acceptors();
        let mut out = broadcast(&Message::P1A(self.me, self.ballot), &acceptors);
        let ghost requests = envelope_views(out@);
        self.total = acceptors.len();
        self.wait = IdSet::from_list(&acceptors);
        self.phase = Phase::Waiting;
        assert(self@ == old(self)@.waiting_for(acceptors@));
        self.settle(&mut out);
        assert(envelope_views(out@) =~= requests + old(self)@.waiting_for(acceptors@).verdict());
        out
    }

    /// Handles one message and returns the messages to send. A waiting scout
    /// refuses what is no phase-1 answer, and stays as it was.
    pub fn exec(&mut self, msg: Message) -> (r: Result<Vec<WireMessage>, ProtocolError>)
        ensures
            match r {
                Ok(out) => {
                    &&& old(self)@.handles(msg@)
                    &&& final(self)@ == old(self)@.next(msg@)
                    &&& envelope_views(out@) == old(self)@.output(msg@)
                },
                Err(e) => {
                    &&& !old(self)@.handles(msg@)
                    &&& e == ProtocolError::UnexpectedMessage
                    &&& final(self)@ == old(self)@
                },
            },
    {
        let mut out: Vec<WireMessage> = Vec::new();
        if self.phase != Phase::Waiting {
            assert(envelope_views(out@) =~= old(self)@.output(msg@));
            return Ok(out);
        }
        match msg {
            Message::P1B(pid, ballot, accepted) => {
                if ballot != self.ballot {
                    out.push(WireMessage::new(self.leader, Message::Preempt(self.me, ballot)));
                    self.phase = Phase::Finished;
                    assert(envelope_views(out@) =~= old(self)@.output(msg@));
                    return Ok(out);
                }
                if self.wait.remove(pid) {
                    self.values.extend(accepted);
                }
                assert(self@ == old(self)@.heard(pid, accepted@));
                self.settle(&mut out);
                Ok(out)
            },
            _ => Err(ProtocolError::UnexpectedMessage),
        }
    }

    /// Tells the leader if a majority has answered.
    fn settle(&mut self, out: &mut Vec<WireMessage>)
        requires
            old(self)@.phase == Phase::Waiting,
        ensures
            final(self)@ == old(self)@.settled(),
            envelope_views(final(out)@) == envelope_views(old(out)@) + old(self)@.verdict(),
    {
        let owing = self.wait.len();
        if owing < self.total && owing < self.total - owing {
            out.push(
                WireMessage::new(
                    self.leader,
                    Message::Adopt(self.me, self.ballot, self.values.clone()),
                ),
            );
            self.phase = Phase::Finished;
        }
        assert(envelope_views(out@) =~= envelope_views(old(out)@) + old(self)@.verdict());
    }

    /// Where the scout stands.
    pub fn phase(&self) -> (p: Phase)
        ensures
            p == self@.phase,
    {
        self.phase
    }

    /// This scout's identifier.
    pub fn me(&self) -> (id: ProcessId)
        ensures
            id == self@.me,
    {
        self.me
    }
}

/// A commander: it asks every acceptor to accept one command for one slot
/// under one ballot.
pub struct Commander {
    me: ProcessId,
    leader: ProcessId,
    ballot: BallotNumber,
    slot: SlotNumber,
    command: Command,
    phase: Phase,
    total: usize,
    wait: IdSet,
    replicas: Vec<ProcessId>,
}

/// What a commander's state is.
pub struct CommanderView {
    pub me: ProcessId,
    pub leader: ProcessId,
    pub ballot: BallotNumber,
    pub slot: SlotNumber,
    pub command: CommandView,
    pub phase: Phase,
    /// How many acceptors the directory listed when the commander started.
    pub total: nat,
    /// The acceptors that have not accepted yet.
    pub wait: Set<ProcessId>,
    /// The replicas the directory listed when the commander started.
    pub replicas: Seq<ProcessId>,
}

impl CommanderView {
    /// A commander that has not started.
    pub open spec fn initial(
        me: ProcessId,
        leader: ProcessId,
        ballot: BallotNumber,
        slot: SlotNumber,
        command: CommandView,
    ) -> CommanderView {
        CommanderView {
            me,
            leader,
            ballot,
            slot,
            command,
            phase: Phase::Created,
            total: 0,
            wait: Set::empty(),
            replicas: Seq::empty(),
        }
    }

    /// The commander once it waits for all of `acceptors`.
    pub open spec fn waiting_for(
        self,
        acceptors: Seq<ProcessId>,
        replicas: Seq<ProcessId>,
    ) -> CommanderView {
        CommanderView {
            phase: Phase::Waiting,
            total: acceptors.len(),
            wait: acceptors.to_set(),
            replicas,
            ..self
        }
    }

    /// A waiting commander finishes as soon as a majority has accepted.
    pub open spec fn settled(self) -> CommanderView {
        if majority_answered(self.wait, self.total) {
            CommanderView { phase: Phase::Finished, ..self }
        } else {
            self
        }
    }

    /// The decision this commander works for.
    pub open spec fn decision(self) -> MessageView {
        MessageView::Decision(self.me, self.slot, self.command)
    }

    /// What a waiting commander announces when it settles: once a majority has
    /// accepted, the decision to every replica, and then to its leader.
    pub open spec fn verdict(self) -> Seq<WireMessageView> {
        if majority_answered(self.wait, self.total) {
            broadcast_views(self.decision(), self.replicas).push(
                WireMessageView { to: self.leader, message: self.decision() },
            )
        } else {
            Seq::empty()
        }
    }

    /// The state after the commander was started with the acceptors and
    /// replicas of the directory. Starting it twice changes nothing.
    pub open spec fn started(
        self,
        acceptors: Seq<ProcessId>,
        replicas: Seq<ProcessId>,
    ) -> CommanderView {
        if self.phase == Phase::Created {
            self.waiting_for(acceptors, replicas).settled()
        } else {
            self
        }
    }

    /// What a commander sends when it is started: its p-value to every
    /// acceptor listed, and its verdict if it can settle at once.
    pub open spec fn opening(
        self,
        acceptors: Seq<ProcessId>,
        replicas: Seq<ProcessId>,
    ) -> Seq<WireMessageView> {
        if self.phase == Phase::Created {
            broadcast_views(
                MessageView::P2A(self.me, self.ballot, self.slot, self.command),
                acceptors,
            ) + self.waiting_for(acceptors, replicas).verdict()
        } else {
            Seq::empty()
        }
    }

    /// A waiting commander takes phase-2 answers and nothing else. One that
    /// is not waiting takes anything, and ignores it.
    pub open spec fn handles(self, m: MessageView) -> bool {
        self.phase != Phase::Waiting || m is P2B
    }

    /// The commander after it counted the acceptance of `pid`.
    pub open spec fn heard(self, pid: ProcessId) -> CommanderView {
        CommanderView { wait: self.wait.remove(pid), ..self }
    }

    /// The state after `m`, for a message the commander handles.
    pub open spec fn next(self, m: MessageView) -> CommanderView {
        if self.phase != Phase::Waiting {
            self
        } else {
            match m {
                MessageView::P2B(pid, b, _) => if b == self.ballot {
                    self.heard(pid).settled()
                } else {
                    CommanderView { phase: Phase::Finished, ..self }
                },
                _ => self,
            }
        }
    }

    /// What the commander sends in answer to `m`, for a message it handles:
    /// its verdict if the answer is for its ballot, else a preemption.
    pub open spec fn output(self, m: MessageView) -> Seq<WireMessageView> {
        if self.phase != Phase::Waiting {
            Seq::empty()
        } else {
            match m {
                MessageView::P2B(pid, b, _) => if b == self.ballot {
                    self.heard(pid).verdict()
                } else {
                    seq![
                        WireMessageView {
                            to: self.leader,
                            message: MessageView::Preempt(self.me, b),
                        },
                    ]
                },
                _ => Seq::empty(),
            }
        }
    }
}

impl View for Commander {
    type V = CommanderView;

    closed spec fn view(&self) -> CommanderView {
        CommanderView {
            me: self.me,
            leader: self.leader,
            ballot: self.ballot,
            slot: self.slot,
            command: self.command@,
            phase: self.phase,
            total: self.total as nat,
            wait: self.wait@,
            replicas: self.replicas@,
        }
    }
}

impl Commander {
    pub fn new(
        id: &ProcessId,
        leader: &ProcessId,
        ballot: BallotNumber,
        slot: SlotNumber,
        command: Command,
    ) -> (c: Commander)
        ensures
            c@ == CommanderView::initial(*id, *leader, ballot, slot, command@),
    {
        Commander {
            me: *id,
            leader: *leader,
            ballot,
            slot,
            command,
            phase: Phase::Created,
            total: 0,
            wait: IdSet::new(),
            replicas: Vec::new(),
        }
    }

    /// Starts the commander: it asks every acceptor of `cluster` to accept
    /// its p-value. Returns the messages to send.
    pub fn start(&mut self, cluster: &Cluster) -> (out: Vec<WireMessage>)
        ensures
            final(self)@ == old(self)@.started(
                cluster.members(ProcessType::Acceptor),
                cluster.members(ProcessType::Replica),
            ),
            envelope_views(out@) == old(self)@.opening(
                cluster.members(ProcessType::Acceptor),
                cluster.members(ProcessType::Replica),
            ),
    {
        if self.phase != Phase::Created {
            return Vec::new();
        }
        let acceptors = cluster.acceptors();
        let request = Message::P2A(self.me, self.ballot, self.slot, self.command.clone());
        let mut out = broadcast(&request, &acceptors);
        let ghost requests = envelope_views(out@);
        self.total = acceptors.len();
        self.wait = IdSet::from_list(&acceptors);
        self.replicas = cluster.replicas();
        self.phase = Phase::Waiting;
        assert(self@ == old(self)@.waiting_for(acceptors@, self.replicas@));
        self.settle(&mut out);
        assert(envelope_views(out@) =~= requests + old(self)@.waiting_for(
            acceptors@,
            self.replicas@,
        ).verdict());
        out
    }

    /// Handles one message and returns the messages to send. A waiting
    /// commander refuses what is no phase-2 answer, and stays as it was.
    pub fn exec(&mut self, msg: Message) -> (r: Result<Vec<WireMessage>, ProtocolError>)
        ensures
            match r {
                Ok(out) => {
                    &&& old(self)@.handles(msg@)
                    &&& final(self)@ == old(self)@.next(msg@)
                    &&& envelope_views(out@) == old(self)@.output(msg@)
                },
                Err(e) => {
                    &&& !old(self)@.handles(msg@)
                    &&& e == ProtocolError::UnexpectedMessage
                    &&& final(self)@ == old(self)@
                },
            },
    {
        let mut out: Vec<WireMessage> = Vec::new();
        if self.phase != Phase::Waiting {
            assert(envelope_views(out@) =~= old(self)@.output(msg@));
            return Ok(out);
        }
        match msg {
            Message::P2B(pid, ballot, _) => {
                if self.ballot == ballot {
                    self.wait.remove(pid);
                    assert(self@ == old(self)@.heard(pid));
                    self.settle(&mut out);
                } else {
                    out.push(WireMessage::new(self.leader, Message::Preempt(self.me, ballot)));
                    self.phase = Phase::Finished;
                    assert(envelope_views(out@) =~= old(self)@.output(msg@));
                }
                Ok(out)
            },
            _ => Err(ProtocolError::UnexpectedMessage),
        }
    }

    /// Announces the decision if a majority has accepted.
    fn settle(&mut self, out: &mut Vec<WireMessage>)
        requires
            old(self)@.phase == Phase::Waiting,
        ensures
            final(self)@ == old(self)@.settled(),
            envelope_views(final(out)@) == envelope_views(old(out)@) + old(self)@.verdict(),
    {
        let owing = self.wait.len();
        if owing < self.total && owing < self.total - owing {
            let decision = Message::Decision(self.me, self.slot, self.command.clone());
            let mut news = broadcast(&decision, &self.replicas);
            news.push(WireMessage::new(self.leader, decision));
            assert(envelope_views(news@) =~= old(self)@.verdict());
            let ghost before = out@;
            out.append(&mut news);
            assert(envelope_views(out@) =~= envelope_views(before) + old(self)@.verdict());
            self.phase = Phase::Finished;
        } else {
            assert(envelope_views(out@) =~= envelope_views(old(out)@) + old(self)@.verdict());
        }
    }

    /// Where the commander stands.
    pub fn phase(&self) -> (p: Phase)
        ensures
            p == self@.phase,
    {
        self.phase
    }

    /// This commander's identifier.
    pub fn me(&self) -> (id: ProcessId)
        ensures
            id == self@.me,
    {
        self.me
    }
}

} // verus!
