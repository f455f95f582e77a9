//! A model of a whole cluster: every process of every role, and every
//! message that was ever sent.
//!
//! The network may lose a message, deliver it late, and deliver it more
//! than once: a step of the model delivers any message that was sent
//! before, and a message stays in the network for ever. A process that has
//! crashed is one that takes no more steps. Each process moves as the
//! transition function of its role says; a message that a process refuses
//! leaves everything as it is.
//!
//! What the model takes for granted: the members of the cluster are fixed
//! and no process is listed twice; a worker gets an identifier that no
//! process had before; and a worker sends its first messages in the step
//! that starts it.

use crate::acceptor::AcceptorView;
use crate::env::ProcessId;
use crate::leader::{CommanderView, LeaderView, ScoutView, SpawnView};
use crate::message::{MessageView, ProtocolError, WireMessageView};
use crate::pval::{BallotNumber, CommandView, SlotNumber};
use crate::replica::ReplicaView;
use vstd::prelude::*;

verus! {

/// Who is in the cluster. Membership is fixed.
pub struct Config {
    pub acceptors: Seq<ProcessId>,
    pub leaders: Seq<ProcessId>,
    pub replicas: Seq<ProcessId>,
}

impl Config {
    /// No process is listed twice, under one role or under two.
    pub open spec fn well_formed(self) -> bool {
        &&& self.acceptors.no_duplicates()
        &&& self.leaders.no_duplicates()
        &&& self.replicas.no_duplicates()
        &&& forall|p: ProcessId| !(self.acceptors.contains(p) && self.leaders.contains(p))
        &&& forall|p: ProcessId| !(self.acceptors.contains(p) && self.replicas.contains(p))
        &&& forall|p: ProcessId| !(self.leaders.contains(p) && self.replicas.contains(p))
    }

    /// `p` plays one of the three lasting roles.
    pub open spec fn lists(self, p: ProcessId) -> bool {
        self.acceptors.contains(p) || self.leaders.contains(p) || self.replicas.contains(p)
    }
}

/// A vote: `acceptor` accepted `command` for `slot` under `ballot`.
pub struct Vote {
    pub acceptor: ProcessId,
    pub ballot: BallotNumber,
    pub slot: SlotNumber,
    pub command: CommandView,
}

/// The state of a cluster.
pub struct System {
    pub config: Config,
    pub acceptors: Map<ProcessId, AcceptorView>,
    pub leaders: Map<ProcessId, LeaderView>,
    pub scouts: Map<ProcessId, ScoutView>,
    pub commanders: Map<ProcessId, CommanderView>,
    pub replicas: Map<ProcessId, ReplicaView>,
    /// Every message sent so far.
    pub network: Set<WireMessageView>,
    /// The leaders whose host has started their first scout.
    pub booted: Set<ProcessId>,
    /// Every vote cast so far.
    pub votes: Set<Vote>,
    /// For each replica, the command it performed for each slot it is past.
    pub log: Map<ProcessId, Map<SlotNumber, CommandView>>,
}

/// What can happen next.
pub enum Step {
    /// A client sends `command` to `replica`.
    Request { replica: ProcessId, client: ProcessId, command: CommandView },
    /// The host of `leader` starts it: the leader's first scout begins,
    /// under the fresh identifier `id`.
    Boot { leader: ProcessId, id: ProcessId },
    /// The message `w` reaches its receiver. Where the receiver is a leader
    /// that asks for workers, `ids` are their fresh identifiers, in order.
    Deliver { w: WireMessageView, ids: Seq<ProcessId> },
}

impl System {
    /// The cluster before anything has happened.
    pub open spec fn initial(config: Config) -> System {
        System {
            config,
            acceptors: Map::new(
                |p: ProcessId| config.acceptors.contains(p),
                |p: ProcessId| AcceptorView::initial(p),
            ),
            leaders: Map::new(
                |p: ProcessId| config.leaders.contains(p),
                |p: ProcessId| LeaderView::initial(p),
            ),
            scouts: Map::empty(),
            commanders: Map::empty(),
            replicas: Map::new(
                |p: ProcessId| config.replicas.contains(p),
                |p: ProcessId| ReplicaView::initial(p),
            ),
            network: Set::empty(),
            booted: Set::empty(),
            votes: Set::empty(),
            log: Map::new(|p: ProcessId| config.replicas.contains(p), |p: ProcessId| Map::empty()),
        }
    }

    /// `p` is the identifier of a process that exists.
    pub open spec fn knows(self, p: ProcessId) -> bool {
        self.config.lists(p) || self.scouts.contains_key(p) || self.commanders.contains_key(p)
    }

    /// `ids` can name new workers: none is known, none comes twice.
    pub open spec fn fresh(self, ids: Seq<ProcessId>) -> bool {
        &&& ids.no_duplicates()
        &&& forall|i: int| 0 <= i < ids.len() ==> !self.knows(#[trigger] ids[i])
    }

    /// The scout that a leader's host starts for ballot `b`.
    pub open spec fn new_scout(self, id: ProcessId, leader: ProcessId, b: BallotNumber) -> ScoutView {
        ScoutView::initial(id, leader, b).started(self.config.acceptors)
    }

    /// What a new scout sends when it starts.
    pub open spec fn scout_opening(self, id: ProcessId, leader: ProcessId, b: BallotNumber) -> Seq<
        WireMessageView,
    > {
        ScoutView::initial(id, leader, b).opening(self.config.acceptors)
    }

    /// The commander that a leader's host starts for `b`, `slot` and `c`.
    pub open spec fn new_commander(
        self,
        id: ProcessId,
        leader: ProcessId,
        b: BallotNumber,
        slot: SlotNumber,
        c: CommandView,
    ) -> CommanderView {
        CommanderView::initial(id, leader, b, slot, c).started(
            self.config.acceptors,
            self.config.replicas,
        )
    }

    /// What a new commander sends when it starts.
    pub open spec fn commander_opening(
        self,
        id: ProcessId,
        leader: ProcessId,
        b: BallotNumber,
        slot: SlotNumber,
        c: CommandView,
    ) -> Seq<WireMessageView> {
        CommanderView::initial(id, leader, b, slot, c).opening(
            self.config.acceptors,
            self.config.replicas,
        )
    }

    /// What the worker for the `i`-th request of `spawns` sends when it
    /// starts.
    pub open spec fn worker_opening(
        self,
        leader: ProcessId,
        spawns: Seq<SpawnView>,
        ids: Seq<ProcessId>,
        i: int,
    ) -> Seq<WireMessageView> {
        match spawns[i] {
            SpawnView::Scout(b) => self.scout_opening(ids[i], leader, b),
            SpawnView::Commander(b, slot, c) => self.commander_opening(ids[i], leader, b, slot, c),
        }
    }

    /// The cluster after the host of `leader` has started the workers that
    /// `spawns` asks for, under the identifiers `ids`.
    pub open spec fn with_workers(
        self,
        leader: ProcessId,
        spawns: Seq<SpawnView>,
        ids: Seq<ProcessId>,
    ) -> System {
        System {
            scouts: Map::new(
                |p: ProcessId|
                    self.scouts.contains_key(p) || exists|i: int|
                        0 <= i < spawns.len() && #[trigger] ids[i] == p && spawns[i] is Scout,
                |p: ProcessId|
                    if self.scouts.contains_key(p) {
                        self.scouts[p]
                    } else {
                        let i = choose|i: int|
                            0 <= i < spawns.len() && #[trigger] ids[i] == p && spawns[i] is Scout;
                        self.new_scout(p, leader, spawns[i]->Scout_0)
                    },
            ),
            commanders: Map::new(
                |p: ProcessId|
                    self.commanders.contains_key(p) || exists|i: int|
                        0 <= i < spawns.len() && #[trigger] ids[i] == p && spawns[i] is Commander,
                |p: ProcessId|
                    if self.commanders.contains_key(p) {
                        self.commanders[p]
                    } else {
                        let i = choose|i: int|
                            0 <= i < spawns.len() && #[trigger] ids[i] == p
                                && spawns[i] is Commander;
                        self.new_commander(
                            p,
                            leader,
                            spawns[i]->Commander_0,
                            spawns[i]->Commander_1,
                            spawns[i]->Commander_2,
                        )
                    },
            ),
            network: Set::new(
                |w: WireMessageView|
                    self.network.contains(w) || exists|i: int|
                        0 <= i < spawns.len() && #[trigger] self.worker_opening(
                            leader,
                            spawns,
                            ids,
                            i,
                        ).contains(w),
            ),
            ..self
        }
    }

    /// The cluster with the messages of `out` sent.
    pub open spec fn with_sent(self, out: Seq<WireMessageView>) -> System {
        System {
            network: Set::new(|w: WireMessageView| self.network.contains(w) || out.contains(w)),
            ..self
        }
    }

    /// The vote that acceptor `a` casts when it handles `m`, if it casts
    /// one: it does when `m` is a phase-2 request at or above its promise.
    pub open spec fn vote_of(a: AcceptorView, m: MessageView) -> Option<Vote> {
        match m {
            MessageView::P2A(_, b, slot, c) => if a.ballot.at_most(b) {
                Some(Vote { acceptor: a.me, ballot: b, slot, command: c })
            } else {
                None
            },
            _ => None,
        }
    }

    /// The log of a replica that was in state `before` and is in state
    /// `after` now: for every slot it went past, the decision on record.
    pub open spec fn extended_log(
        log: Map<SlotNumber, CommandView>,
        before: ReplicaView,
        after: ReplicaView,
    ) -> Map<SlotNumber, CommandView> {
        Map::new(
            |t: SlotNumber| log.contains_key(t) || before.slot <= t < after.slot,
            |t: SlotNumber|
                if log.contains_key(t) {
                    log[t]
                } else {
                    after.decisions[t]
                },
        )
    }

    /// The cluster after `w` has reached its receiver.
    pub open spec fn delivered(self, w: WireMessageView, ids: Seq<ProcessId>) -> System {
        let p = w.to;
        let m = w.message;
        if self.acceptors.contains_key(p) {
            let a = self.acceptors[p];
            if AcceptorView::handles(m) {
                System {
                    acceptors: self.acceptors.insert(p, a.next(m)),
                    votes: match Self::vote_of(a, m) {
                        Some(v) => self.votes.insert(v),
                        None => self.votes,
                    },
                    ..self
                }.with_sent(seq![a.reply(m)])
            } else {
                self
            }
        } else if self.leaders.contains_key(p) {
            let l = self.leaders[p];
            if l.refusal(m) is None {
                System { leaders: self.leaders.insert(p, l.next(m)), ..self }.with_workers(
                    p,
                    l.spawns(m),
                    ids,
                )
            } else {
                self
            }
        } else if self.scouts.contains_key(p) {
            let x = self.scouts[p];
            if x.handles(m) {
                System { scouts: self.scouts.insert(p, x.next(m)), ..self }.with_sent(x.output(m))
            } else {
                self
            }
        } else if self.commanders.contains_key(p) {
            let y = self.commanders[p];
            if y.handles(m) {
                System { commanders: self.commanders.insert(p, y.next(m)), ..self }.with_sent(
                    y.output(m),
                )
            } else {
                self
            }
        } else if self.replicas.contains_key(p) {
            let r = self.replicas[p];
            let leaders = self.config.leaders;
            if r.refusal(m, leaders) == Some(ProtocolError::UnexpectedMessage) {
                self
            } else {
                System {
                    replicas: self.replicas.insert(p, r.next(m, leaders)),
                    log: self.log.insert(p, Self::extended_log(self.log[p], r, r.next(m, leaders))),
                    ..self
                }.with_sent(r.output(m, leaders).sent)
            }
        } else {
            self
        }
    }

    /// Whether `step` can happen now.
    pub open spec fn enabled(self, step: Step) -> bool {
        match step {
            Step::Request { replica, client, command } => self.config.replicas.contains(replica),
            Step::Boot { leader, id } => {
                &&& self.config.leaders.contains(leader)
                &&& !self.booted.contains(leader)
                &&& self.fresh(seq![id])
            },
            Step::Deliver { w, ids } => {
                &&& self.network.contains(w)
                &&& self.fresh(ids)
                &&& self.leaders.contains_key(w.to) ==> ids.len() == self.leaders[w.to].spawns(
                    w.message,
                ).len()
            },
        }
    }

    /// The cluster after `step`.
    pub open spec fn after(self, step: Step) -> System {
        match step {
            Step::Request { replica, client, command } => self.with_sent(
                seq![WireMessageView { to: replica, message: MessageView::Request(client, command) }],
            ),
            Step::Boot { leader, id } => System {
                booted: self.booted.insert(leader),
                ..self
            }.with_workers(leader, seq![SpawnView::Scout(self.leaders[leader].ballot)], seq![id]),
            Step::Deliver { w, ids } => self.delivered(w, ids),
        }
    }

    /// The cluster after the steps of `steps`, one after the other, from
    /// the initial state; `None` where one of them cannot happen when its
    /// turn comes.
    pub open spec fn run(config: Config, steps: Seq<Step>) -> Option<System>
        decreases steps.len(),
    {
        if steps.len() == 0 {
            Some(Self::initial(config))
        } else {
            match Self::run(config, steps.drop_last()) {
                Some(s) => if s.enabled(steps.last()) {
                    Some(s.after(steps.last()))
                } else {
                    None
                },
                None => None,
            }
        }
    }

    /// A commander has announced that `slot` is decided as `c`.
    pub open spec fn decided(self, slot: SlotNumber, c: CommandView) -> bool {
        exists|w: WireMessageView| #[trigger]
            self.network.contains(w) && w.message.decides(slot, c)
    }
}

} // verus!
