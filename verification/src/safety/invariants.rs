//! What is true of every state a cluster can reach.

use crate::env::ProcessId;
use crate::leader::{majority_answered, Phase};
use crate::message::{MessageView, WireMessageView};
use crate::pval::{BallotNumber, CommandView, PValueView, SlotNumber};
use crate::safety::model::{System, Vote};
use vstd::prelude::*;

verus! {

impl System {
    /// `a` is an acceptor of the cluster.
    pub open spec fn is_acceptor(self, a: ProcessId) -> bool {
        self.config.acceptors.contains(a)
    }

    /// Acceptor `a` has accepted `c` for `slot` under `b`.
    pub open spec fn voted(self, a: ProcessId, b: BallotNumber, slot: SlotNumber, c: CommandView) -> bool {
        self.votes.contains(Vote { acceptor: a, ballot: b, slot, command: c })
    }

    /// Acceptor `a` has accepted some command for `slot` under `b`.
    pub open spec fn voted_at(self, a: ProcessId, b: BallotNumber, slot: SlotNumber) -> bool {
        exists|c: CommandView| self.voted(a, b, slot, c)
    }

    /// `a` is an acceptor that the worker with the waiting set `wait` has
    /// counted.
    pub open spec fn counted(self, wait: Set<ProcessId>, a: ProcessId) -> bool {
        self.is_acceptor(a) && !wait.contains(a)
    }

    /// Commander `y` works for `c` in `slot` under `b`.
    pub open spec fn commands(self, y: ProcessId, b: BallotNumber, slot: SlotNumber, c: CommandView) -> bool {
        &&& self.commanders.contains_key(y)
        &&& self.commanders[y].ballot == b
        &&& self.commanders[y].slot == slot
        &&& self.commanders[y].command == c
    }

    /// Some commander works for `c` in `slot` under `b`.
    pub open spec fn issued(self, b: BallotNumber, slot: SlotNumber, c: CommandView) -> bool {
        exists|y: ProcessId| self.commands(y, b, slot, c)
    }

    /// Scout `x` has won a ballot above `b` from a majority none of whom
    /// voted for `slot` under `b`. Those acceptors never will, so nothing
    /// can be chosen for `slot` under `b` any more.
    pub open spec fn blocks(self, x: ProcessId, b: BallotNumber, slot: SlotNumber) -> bool {
        &&& self.scouts.contains_key(x)
        &&& self.scouts[x].phase == Phase::Finished
        &&& majority_answered(self.scouts[x].wait, self.scouts[x].total)
        &&& b.below(self.scouts[x].ballot)
        &&& forall|a: ProcessId| #[trigger]
            self.counted(self.scouts[x].wait, a) ==> !self.voted_at(a, b, slot)
    }

    /// Under `b`, nothing but `c` can be chosen for `slot`: either some
    /// acceptor voted for `c` there, or a scout blocks the ballot.
    pub open spec fn settled(self, b: BallotNumber, slot: SlotNumber, c: CommandView) -> bool {
        (exists|a: ProcessId| self.voted(a, b, slot, c)) || (exists|x: ProcessId|
            self.blocks(x, b, slot))
    }

    /// Under no ballot below `b` can anything but `c` be chosen for `slot`.
    pub open spec fn safe_at(self, b: BallotNumber, slot: SlotNumber, c: CommandView) -> bool {
        forall|lower: BallotNumber| #[trigger] lower.below(b) ==> self.settled(lower, slot, c)
    }

    /// Some replica has proposed `c`.
    pub open spec fn proposed(self, c: CommandView) -> bool {
        exists|r: ProcessId, t: SlotNumber|
            self.replicas.contains_key(r) && #[trigger] self.replicas[r].proposals.contains_key(t)
                && self.replicas[r].proposals[t] == c
    }

    /// The lasting processes are those of the configuration, each under its
    /// own identifier; the workers have identifiers of their own.
    pub open spec fn inv_roles(self) -> bool {
        &&& self.config.well_formed()
        &&& forall|p: ProcessId| #[trigger]
            self.acceptors.contains_key(p) <==> self.config.acceptors.contains(p)
        &&& forall|p: ProcessId| #[trigger]
            self.leaders.contains_key(p) <==> self.config.leaders.contains(p)
        &&& forall|p: ProcessId| #[trigger]
            self.replicas.contains_key(p) <==> self.config.replicas.contains(p)
        &&& forall|p: ProcessId| #[trigger] self.log.contains_key(p) <==> self.config.replicas.contains(p)
        &&& forall|p: ProcessId| #[trigger] self.acceptors.contains_key(p) ==> self.acceptors[p].me == p
        &&& forall|p: ProcessId| #[trigger]
            self.leaders.contains_key(p) ==> self.leaders[p].me == p
                && self.leaders[p].ballot.process_id == p
        &&& forall|p: ProcessId| #[trigger] self.replicas.contains_key(p) ==> self.replicas[p].me == p
        &&& forall|p: ProcessId| #[trigger]
            self.scouts.contains_key(p) ==> !self.config.lists(p) && !self.commanders.contains_key(p)
        &&& forall|p: ProcessId| #[trigger] self.commanders.contains_key(p) ==> !self.config.lists(p)
    }

    /// Every scout belongs to a leader that was started, works under a
    /// ballot of that leader which the leader has not left behind it, has
    /// started, and waits for acceptors only.
    pub open spec fn inv_scout(self, x: ProcessId) -> bool {
        let scout = self.scouts[x];
        &&& scout.me == x
        &&& self.config.leaders.contains(scout.leader)
        &&& self.booted.contains(scout.leader)
        &&& scout.ballot.process_id == scout.leader
        &&& scout.ballot.at_most(self.leaders[scout.leader].ballot)
        &&& scout.phase != Phase::Created
        &&& scout.total == self.config.acceptors.len()
        &&& forall|a: ProcessId| #[trigger] scout.wait.contains(a) ==> self.is_acceptor(a)
    }

    /// Every commander belongs to a leader that was started, works under a
    /// ballot of that leader which the leader has not left behind it, has
    /// started, and waits for acceptors only.
    pub open spec fn inv_commander(self, y: ProcessId) -> bool {
        let commander = self.commanders[y];
        &&& commander.me == y
        &&& self.config.leaders.contains(commander.leader)
        &&& self.booted.contains(commander.leader)
        &&& commander.ballot.process_id == commander.leader
        &&& commander.ballot.at_most(self.leaders[commander.leader].ballot)
        &&& commander.phase != Phase::Created
        &&& commander.total == self.config.acceptors.len()
        &&& commander.replicas == self.config.replicas
        &&& forall|a: ProcessId| #[trigger] commander.wait.contains(a) ==> self.is_acceptor(a)
    }

    /// The workers are in order, and no two scouts work under one ballot.
    pub open spec fn inv_workers(self) -> bool {
        &&& forall|x: ProcessId| #[trigger] self.scouts.contains_key(x) ==> self.inv_scout(x)
        &&& forall|y: ProcessId| #[trigger] self.commanders.contains_key(y) ==> self.inv_commander(y)
        &&& forall|x: ProcessId, z: ProcessId|
            #![trigger self.scouts[x], self.scouts[z]]
            self.scouts.contains_key(x) && self.scouts.contains_key(z) && self.scouts[x].ballot
                == self.scouts[z].ballot ==> x == z
    }

    /// A vote was cast by an acceptor, for what a commander works for; the
    /// acceptor still holds a p-value for the slot, at or above the vote.
    pub open spec fn inv_vote(self, v: Vote) -> bool {
        &&& self.is_acceptor(v.acceptor)
        &&& self.issued(v.ballot, v.slot, v.command)
        &&& self.acceptors[v.acceptor].accepted.contains_key(v.slot)
        &&& v.ballot.at_most(self.acceptors[v.acceptor].accepted[v.slot].ballot)
    }

    /// An acceptor's promise covers what it has accepted, and what it holds
    /// for a slot it has voted for.
    pub open spec fn inv_acceptor(self, a: ProcessId) -> bool {
        let acceptor = self.acceptors[a];
        &&& acceptor.promise_covers_accepted()
        &&& forall|s: SlotNumber| #[trigger]
            acceptor.accepted.contains_key(s) ==> self.voted(
                a,
                acceptor.accepted[s].ballot,
                s,
                acceptor.accepted[s].command,
            )
    }

    /// The votes and the acceptors are in order.
    pub open spec fn inv_votes(self) -> bool {
        &&& forall|v: Vote| #[trigger] self.votes.contains(v) ==> self.inv_vote(v)
        &&& forall|a: ProcessId| #[trigger] self.acceptors.contains_key(a) ==> self.inv_acceptor(a)
    }

    /// The record `values`, gathered from acceptor `a` for ballot `b`,
    /// shows every vote `a` has cast below `b`.
    pub open spec fn shows_votes_of(
        self,
        values: Map<SlotNumber, PValueView>,
        a: ProcessId,
        b: BallotNumber,
    ) -> bool {
        forall|v: Vote| #[trigger]
            self.votes.contains(v) && v.acceptor == a && v.ballot.below(b) ==> values.contains_key(
                v.slot,
            ) && v.ballot.at_most(values[v.slot].ballot)
    }

    /// Every p-value of `values` was voted for by some acceptor.
    pub open spec fn holds_votes_only(self, values: Map<SlotNumber, PValueView>) -> bool {
        forall|s: SlotNumber| #[trigger]
            values.contains_key(s) ==> exists|a: ProcessId|
                self.voted(a, values[s].ballot, s, values[s].command)
    }

    /// What a message in the network tells of the cluster.
    pub open spec fn inv_message(self, w: WireMessageView) -> bool {
        match w.message {
            MessageView::P1B(a, b, accepted) => {
                &&& self.is_acceptor(a)
                &&& b.at_most(self.acceptors[a].ballot)
                &&& self.shows_votes_of(accepted, a, b)
                &&& self.holds_votes_only(accepted)
            },
            MessageView::P2A(src, b, slot, c) => self.commands(src, b, slot, c),
            MessageView::P2B(a, b, _) => {
                &&& self.commanders.contains_key(w.to)
                &&& self.commanders[w.to].ballot == b ==> self.voted(
                    a,
                    b,
                    self.commanders[w.to].slot,
                    self.commanders[w.to].command,
                )
            },
            MessageView::Adopt(src, b, values) => {
                &&& self.scouts.contains_key(src)
                &&& self.scouts[src].ballot == b
                &&& self.scouts[src].values == values
                &&& self.scouts[src].leader == w.to
                &&& self.scouts[src].phase == Phase::Finished
                &&& majority_answered(self.scouts[src].wait, self.scouts[src].total)
            },
            MessageView::Decision(src, slot, c) => {
                &&& self.commanders.contains_key(src)
                &&& self.commanders[src].slot == slot
                &&& self.commanders[src].command == c
                &&& self.commanders[src].phase == Phase::Finished
                &&& majority_answered(self.commanders[src].wait, self.commanders[src].total)
            },
            MessageView::Preempt(_, _) => self.booted.contains(w.to),
            MessageView::Propose(_, _, c) => self.proposed(c),
            _ => true,
        }
    }

    /// Every message in the network is in order.
    pub open spec fn inv_network(self) -> bool {
        forall|w: WireMessageView| #[trigger] self.network.contains(w) ==> self.inv_message(w)
    }

    /// What a scout has gathered: every acceptor it has counted has
    /// promised its ballot, and the scout's record shows all that acceptor
    /// voted for below the ballot; the record holds votes only.
    pub open spec fn inv_gathered(self, x: ProcessId) -> bool {
        let scout = self.scouts[x];
        &&& self.holds_votes_only(scout.values)
        &&& forall|a: ProcessId| #[trigger]
            self.counted(scout.wait, a) ==> scout.ballot.at_most(self.acceptors[a].ballot)
                && self.shows_votes_of(scout.values, a, scout.ballot)
    }

    /// What a commander has gathered: every acceptor it has counted has
    /// voted for its command.
    pub open spec fn inv_counted(self, y: ProcessId) -> bool {
        let commander = self.commanders[y];
        forall|a: ProcessId| #[trigger]
            self.counted(commander.wait, a) ==> self.voted(
                a,
                commander.ballot,
                commander.slot,
                commander.command,
            )
    }

    /// What a commander works for is what its leader proposes, as long as
    /// the leader is at the commander's ballot; and such a leader is active.
    pub open spec fn inv_follows(self, y: ProcessId) -> bool {
        let commander = self.commanders[y];
        let leader = self.leaders[commander.leader];
        commander.ballot == leader.ballot ==> leader.active && leader.proposals.contains_key(
            commander.slot,
        ) && leader.proposals[commander.slot].command == commander.command
    }

    /// An active leader's ballot was won by a scout, and the leader
    /// proposes, for each slot of that scout's record, the command there.
    pub open spec fn backs(self, x: ProcessId, l: ProcessId) -> bool {
        &&& self.scouts.contains_key(x)
        &&& self.scouts[x].ballot == self.leaders[l].ballot
        &&& self.scouts[x].phase == Phase::Finished
        &&& majority_answered(self.scouts[x].wait, self.scouts[x].total)
        &&& forall|s: SlotNumber| #[trigger]
            self.scouts[x].values.contains_key(s) ==> self.leaders[l].proposals.contains_key(s)
                && self.leaders[l].proposals[s].command == self.scouts[x].values[s].command
    }

    /// Scout `x` has won the ballot `b`: it has counted a majority of the
    /// acceptors, and each of them has promised `b` or a higher ballot.
    pub open spec fn has_won(self, x: ProcessId, b: BallotNumber) -> bool {
        &&& self.scouts.contains_key(x)
        &&& self.scouts[x].ballot == b
        &&& majority_answered(self.scouts[x].wait, self.config.acceptors.len())
        &&& forall|a: ProcessId| #[trigger]
            self.counted(self.scouts[x].wait, a) ==> b.at_most(self.acceptors[a].ballot)
    }

    /// The progress of the workers and leaders is in order.
    pub open spec fn inv_progress(self) -> bool {
        &&& forall|x: ProcessId| #[trigger] self.scouts.contains_key(x) ==> self.inv_gathered(x)
        &&& forall|y: ProcessId| #[trigger]
            self.commanders.contains_key(y) ==> self.inv_counted(y) && self.inv_follows(y)
        &&& forall|l: ProcessId| #[trigger]
            self.leaders.contains_key(l) && self.leaders[l].active ==> exists|x: ProcessId|
                self.backs(x, l)
        &&& forall|y: ProcessId, z: ProcessId|
            #![trigger self.commanders[y], self.commanders[z]]
            self.commanders.contains_key(y) && self.commanders.contains_key(z)
                && self.commanders[y].ballot == self.commanders[z].ballot
                && self.commanders[y].slot == self.commanders[z].slot ==> self.commanders[y].command
                == self.commanders[z].command
    }

    /// What every commander works for is safe at its ballot.
    pub open spec fn inv_safe(self) -> bool {
        forall|y: ProcessId| #[trigger]
            self.commanders.contains_key(y) ==> self.safe_at(
                self.commanders[y].ballot,
                self.commanders[y].slot,
                self.commanders[y].command,
            )
    }

    /// Every command a leader or a commander works for was proposed by a
    /// replica.
    pub open spec fn inv_origin(self) -> bool {
        &&& forall|y: ProcessId| #[trigger]
            self.commanders.contains_key(y) ==> self.proposed(self.commanders[y].command)
        &&& forall|l: ProcessId, s: SlotNumber|
            self.leaders.contains_key(l) && #[trigger] self.leaders[l].proposals.contains_key(s)
                ==> self.proposed(self.leaders[l].proposals[s].command)
    }

    /// What a replica has on record as decided was announced as decided;
    /// it has performed every slot from 1 up to its current one and no
    /// other; and what it performed for a slot is what it has on record for
    /// the slot.
    pub open spec fn inv_replica(self, r: ProcessId) -> bool {
        let replica = self.replicas[r];
        &&& replica.slot >= 1
        &&& forall|t: SlotNumber| #[trigger]
            replica.decisions.contains_key(t) ==> self.decided(t, replica.decisions[t])
        &&& forall|t: SlotNumber| #[trigger]
            self.log[r].contains_key(t) <==> 1 <= t < replica.slot
        &&& forall|t: SlotNumber| #[trigger]
            self.log[r].contains_key(t) ==> replica.decisions.contains_key(t) && self.log[r][t]
                == replica.decisions[t]
    }

    /// The replicas are in order.
    pub open spec fn inv_replicas(self) -> bool {
        forall|r: ProcessId| #[trigger] self.replicas.contains_key(r) ==> self.inv_replica(r)
    }

    /// All that is true of every state a cluster can reach.
    pub open spec fn inv(self) -> bool {
        &&& self.inv_roles()
        &&& self.inv_workers()
        &&& self.inv_votes()
        &&& self.inv_network()
        &&& self.inv_progress()
        &&& self.inv_safe()
        &&& self.inv_origin()
        &&& self.inv_replicas()
    }
}

} // verus!
