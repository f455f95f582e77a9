//! A leader's step, and its start, keep the invariants.

use crate::ds::{ascending, lemma_ascending};
use crate::env::ProcessId;
use crate::leader::{majority_answered, LeaderView, Phase, SpawnView};
use crate::message::{MessageView, WireMessageView};
use crate::pval::{lemma_ballot_order_total, lemma_ballot_order_transitive, BallotNumber,
    CommandView, SlotNumber};
use crate::safety::frame::{lemma_decided_stays, lemma_proposed_same};
use crate::safety::model::{System, Vote};
use crate::safety::spawn::{lemma_workers_started, spawn_fits, workers_fit};
use vstd::prelude::*;

verus! {

/// The cluster with the leader `p` in the state `next`.
pub open spec fn leader_moved(s: System, p: ProcessId, next: LeaderView) -> System {
    System { leaders: s.leaders.insert(p, next), ..s }
}

/// A leader may move on to a state at a ballot of its own that is not
/// below the one it held, if its commanders at the new ballot work for what
/// it then proposes, if a scout has won the new ballot where the leader is
/// then active, and if all it then proposes was proposed by a replica.
pub open spec fn leader_may_become(s: System, p: ProcessId, next: LeaderView) -> bool {
    let t = leader_moved(s, p, next);
    &&& s.inv()
    &&& s.leaders.contains_key(p)
    &&& next.me == p
    &&& next.ballot.process_id == p
    &&& s.leaders[p].ballot.at_most(next.ballot)
    &&& forall|y: ProcessId| #[trigger]
        s.commanders.contains_key(y) && s.commanders[y].leader == p ==> t.inv_follows(y)
    &&& next.active ==> exists|x: ProcessId| t.backs(x, p)
    &&& forall|slot: SlotNumber| #[trigger]
        next.proposals.contains_key(slot) ==> s.proposed(next.proposals[slot].command)
}

/// What is settled does not depend on the leaders.
pub proof fn lemma_settled_whatever_leaders(
    s: System,
    t: System,
    b: BallotNumber,
    slot: SlotNumber,
    c: CommandView,
)
    requires
        s.settled(b, slot, c),
        t.config == s.config,
        t.scouts == s.scouts,
        t.votes == s.votes,
    ensures
        t.settled(b, slot, c),
{
    if exists|a: ProcessId| s.voted(a, b, slot, c) {
        let a = choose|a: ProcessId| s.voted(a, b, slot, c);
        assert(t.voted(a, b, slot, c));
    } else {
        let x = choose|x: ProcessId| s.blocks(x, b, slot);
        assert forall|a: ProcessId| #[trigger] t.counted(t.scouts[x].wait, a) implies !t.voted_at(
            a,
            b,
            slot,
        ) by {
            assert(s.counted(s.scouts[x].wait, a));
            if t.voted_at(a, b, slot) {
                let c0 = choose|c0: CommandView| t.voted(a, b, slot, c0);
                assert(s.voted(a, b, slot, c0));
            }
        }
        assert(t.blocks(x, b, slot));
    }
}

/// What is safe does not depend on the leaders.
pub proof fn lemma_safe_whatever_leaders(
    s: System,
    t: System,
    b: BallotNumber,
    slot: SlotNumber,
    c: CommandView,
)
    requires
        s.safe_at(b, slot, c),
        t.config == s.config,
        t.scouts == s.scouts,
        t.votes == s.votes,
    ensures
        t.safe_at(b, slot, c),
{
    assert forall|lower: BallotNumber| #[trigger] lower.below(b) implies t.settled(
        lower,
        slot,
        c,
    ) by {
        assert(s.settled(lower, slot, c));
        lemma_settled_whatever_leaders(s, t, lower, slot, c);
    }
}

/// A leader that moves as it may keeps the invariants.
pub proof fn lemma_leader_moves(s: System, p: ProcessId, next: LeaderView)
    requires
        leader_may_become(s, p, next),
    ensures
        leader_moved(s, p, next).inv(),
{
    let t = leader_moved(s, p, next);
    assert(s.inv_roles());
    assert(t.inv_roles());
    assert forall|x: ProcessId| #[trigger] t.scouts.contains_key(x) implies t.inv_scout(x) by {
        assert(s.inv_scout(x));
        if s.scouts[x].leader == p {
            lemma_ballot_order_transitive(s.scouts[x].ballot, s.leaders[p].ballot, next.ballot);
        }
    }
    assert forall|y: ProcessId| #[trigger] t.commanders.contains_key(y) implies t.inv_commander(
        y,
    ) by {
        assert(s.inv_commander(y));
        if s.commanders[y].leader == p {
            lemma_ballot_order_transitive(s.commanders[y].ballot, s.leaders[p].ballot, next.ballot);
        }
    }
    assert(t.inv_workers());
    assert forall|v: Vote| #[trigger] t.votes.contains(v) implies t.inv_vote(v) by {
        assert(s.inv_vote(v));
        let y = choose|y: ProcessId| s.commands(y, v.ballot, v.slot, v.command);
        assert(t.commands(y, v.ballot, v.slot, v.command));
    }
    assert forall|a: ProcessId| #[trigger] t.acceptors.contains_key(a) implies t.inv_acceptor(a) by {
        assert(s.inv_acceptor(a));
    }
    assert(t.inv_votes());
    assert forall|w: WireMessageView| #[trigger] t.network.contains(w) implies t.inv_message(w) by {
        assert(s.inv_message(w));
        match w.message {
            MessageView::P1B(a, b, accepted) => {
                assert forall|v: Vote| #[trigger]
                    t.votes.contains(v) && v.acceptor == a && v.ballot.below(
                        b,
                    ) implies accepted.contains_key(v.slot) && v.ballot.at_most(
                    accepted[v.slot].ballot,
                ) by {}
                assert forall|slot: SlotNumber| #[trigger]
                    accepted.contains_key(slot) implies exists|a: ProcessId|
                    t.voted(a, accepted[slot].ballot, slot, accepted[slot].command) by {
                    let a = choose|a: ProcessId|
                        s.voted(a, accepted[slot].ballot, slot, accepted[slot].command);
                    assert(t.voted(a, accepted[slot].ballot, slot, accepted[slot].command));
                }
            },
            MessageView::Propose(_, _, c) => {
                lemma_proposed_same(s, t, c);
            },
            _ => {},
        }
    }
    assert forall|x: ProcessId| #[trigger] t.scouts.contains_key(x) implies t.inv_gathered(x) by {
        assert(s.inv_gathered(x));
        let scout = s.scouts[x];
        assert forall|slot: SlotNumber| #[trigger]
            scout.values.contains_key(slot) implies exists|a: ProcessId|
            t.voted(a, scout.values[slot].ballot, slot, scout.values[slot].command) by {
            let a = choose|a: ProcessId|
                s.voted(a, scout.values[slot].ballot, slot, scout.values[slot].command);
            assert(t.voted(a, scout.values[slot].ballot, slot, scout.values[slot].command));
        }
        assert forall|a: ProcessId| #[trigger]
            t.counted(scout.wait, a) implies scout.ballot.at_most(t.acceptors[a].ballot)
            && t.shows_votes_of(scout.values, a, scout.ballot) by {
            assert(s.counted(scout.wait, a));
            assert(s.shows_votes_of(scout.values, a, scout.ballot));
        }
    }
    assert forall|y: ProcessId| #[trigger] t.commanders.contains_key(y) implies t.inv_counted(y)
        && t.inv_follows(y) by {
        assert(s.inv_counted(y) && s.inv_follows(y));
        assert forall|a: ProcessId| #[trigger] t.counted(t.commanders[y].wait, a) implies t.voted(
            a,
            t.commanders[y].ballot,
            t.commanders[y].slot,
            t.commanders[y].command,
        ) by {
            assert(s.counted(s.commanders[y].wait, a));
        }
    }
    assert forall|l: ProcessId| #[trigger]
        t.leaders.contains_key(l) && t.leaders[l].active implies exists|x: ProcessId|
        t.backs(x, l) by {
        if l != p {
            let x = choose|x: ProcessId| s.backs(x, l);
            assert(t.backs(x, l));
        }
    }
    assert(t.inv_progress());
    assert forall|y: ProcessId| #[trigger] t.commanders.contains_key(y) implies t.safe_at(
        t.commanders[y].ballot,
        t.commanders[y].slot,
        t.commanders[y].command,
    ) by {
        let k = s.commanders[y];
        assert(s.safe_at(k.ballot, k.slot, k.command));
        lemma_safe_whatever_leaders(s, t, k.ballot, k.slot, k.command);
    }
    assert forall|y: ProcessId| #[trigger] t.commanders.contains_key(y) implies t.proposed(
        t.commanders[y].command,
    ) by {
        lemma_proposed_same(s, t, s.commanders[y].command);
    }
    assert forall|l: ProcessId, slot: SlotNumber|
        t.leaders.contains_key(l) && #[trigger] t.leaders[l].proposals.contains_key(
            slot,
        ) implies t.proposed(t.leaders[l].proposals[slot].command) by {
        if l == p {
            lemma_proposed_same(s, t, next.proposals[slot].command);
        } else {
            lemma_proposed_same(s, t, s.leaders[l].proposals[slot].command);
        }
    }
    assert forall|r: ProcessId| #[trigger] t.replicas.contains_key(r) implies t.inv_replica(r) by {
        assert(s.inv_replica(r));
        assert forall|slot: SlotNumber| #[trigger]
            t.replicas[r].decisions.contains_key(slot) implies t.decided(
            slot,
            t.replicas[r].decisions[slot],
        ) by {
            lemma_decided_stays(s, t, slot, s.replicas[r].decisions[slot]);
        }
    }
}

/// What a scout that has won its ballot makes safe: at the scout's ballot,
/// the command of its record is safe for a slot the record holds, and any
/// command is safe for a slot the record does not hold.
pub proof fn lemma_won_ballot_is_safe(s: System, x: ProcessId, slot: SlotNumber, c: CommandView)
    requires
        s.inv(),
        s.scouts.contains_key(x),
        s.scouts[x].phase == Phase::Finished,
        majority_answered(s.scouts[x].wait, s.scouts[x].total),
        s.scouts[x].values.contains_key(slot) ==> s.scouts[x].values[slot].command == c,
    ensures
        s.safe_at(s.scouts[x].ballot, slot, c),
{
    let scout = s.scouts[x];
    assert(s.inv_gathered(x));
    assert forall|lower: BallotNumber| #[trigger] lower.below(scout.ballot) implies s.settled(
        lower,
        slot,
        c,
    ) by {
        if scout.values.contains_key(slot) {
            let held = scout.values[slot];
            lemma_ballot_order_total(lower, held.ballot);
            let a = choose|a: ProcessId| s.voted(a, held.ballot, slot, held.command);
            if lower == held.ballot {
                assert(s.voted(a, lower, slot, c));
            } else if lower.below(held.ballot) {
                let v = Vote { acceptor: a, ballot: held.ballot, slot, command: c };
                assert(s.inv_vote(v));
                let y = choose|y: ProcessId| s.commands(y, held.ballot, slot, c);
                assert(s.safe_at(s.commanders[y].ballot, s.commanders[y].slot, s.commanders[y].command));
                assert(s.settled(lower, slot, c));
            } else {
                assert forall|q: ProcessId| #[trigger] s.counted(scout.wait, q) implies !s.voted_at(
                    q,
                    lower,
                    slot,
                ) by {
                    if s.voted_at(q, lower, slot) {
                        let c0 = choose|c0: CommandView| s.voted(q, lower, slot, c0);
                        let v = Vote { acceptor: q, ballot: lower, slot, command: c0 };
                        assert(s.shows_votes_of(scout.values, q, scout.ballot));
                        assert(s.votes.contains(v));
                    }
                }
                assert(s.blocks(x, lower, slot));
            }
        } else {
            assert forall|q: ProcessId| #[trigger] s.counted(scout.wait, q) implies !s.voted_at(
                q,
                lower,
                slot,
            ) by {
                if s.voted_at(q, lower, slot) {
                    let c0 = choose|c0: CommandView| s.voted(q, lower, slot, c0);
                    let v = Vote { acceptor: q, ballot: lower, slot, command: c0 };
                    assert(s.shows_votes_of(scout.values, q, scout.ballot));
                    assert(s.votes.contains(v));
                }
            }
            assert(s.blocks(x, lower, slot));
        }
    }
}

/// What the step is about: leader `w.to` handles `w.message`, which is in
/// the network and which it does not refuse.
pub open spec fn leader_handles(s: System, w: WireMessageView) -> bool {
    &&& s.inv()
    &&& s.network.contains(w)
    &&& s.leaders.contains_key(w.to)
    &&& s.leaders[w.to].refusal(w.message) is None
}

/// Every command of the record of a scout was proposed by a replica.
proof fn lemma_gathered_was_proposed(s: System, x: ProcessId, slot: SlotNumber)
    requires
        s.inv(),
        s.scouts.contains_key(x),
        s.scouts[x].values.contains_key(slot),
    ensures
        s.proposed(s.scouts[x].values[slot].command),
{
    let held = s.scouts[x].values[slot];
    assert(s.inv_gathered(x));
    let a = choose|a: ProcessId| s.voted(a, held.ballot, slot, held.command);
    assert(s.inv_vote(Vote { acceptor: a, ballot: held.ballot, slot, command: held.command }));
    let y = choose|y: ProcessId| s.commands(y, held.ballot, slot, held.command);
    assert(s.proposed(s.commanders[y].command));
}

/// The state a leader moves to is one it may move to.
proof fn lemma_leader_next_fits(s: System, w: WireMessageView)
    requires
        leader_handles(s, w),
    ensures
        leader_may_become(s, w.to, s.leaders[w.to].next(w.message)),
{
    let p = w.to;
    let l = s.leaders[p];
    let m = w.message;
    let next = l.next(m);
    let t = leader_moved(s, p, next);
    assert(s.inv_roles());
    assert(s.inv_message(w));
    lemma_ballot_order_total(l.ballot, l.ballot);
    match m {
        MessageView::Propose(_, slot, c) => {
            assert forall|y: ProcessId| #[trigger]
                s.commanders.contains_key(y) && s.commanders[y].leader == p implies t.inv_follows(
                y,
            ) by {
                assert(s.inv_follows(y));
            }
            if next.active {
                let x = choose|x: ProcessId| s.backs(x, p);
                assert(t.backs(x, p));
            }
            assert forall|k: SlotNumber| #[trigger]
                next.proposals.contains_key(k) implies s.proposed(next.proposals[k].command) by {
                if l.proposals.contains_key(k) {
                    assert(s.proposed(l.proposals[k].command));
                }
            }
        },
        MessageView::Adopt(src, b, values) => {
            if b == l.ballot {
                assert forall|y: ProcessId| #[trigger]
                    s.commanders.contains_key(y) && s.commanders[y].leader
                        == p implies t.inv_follows(y) by {
                    assert(s.inv_follows(y));
                    if s.commanders[y].ballot == l.ballot {
                        let x = choose|x: ProcessId| s.backs(x, p);
                        assert(s.scouts[x].ballot == s.scouts[src].ballot);
                        assert(x == src);
                    }
                }
                assert(t.backs(src, p));
                assert forall|k: SlotNumber| #[trigger]
                    next.proposals.contains_key(k) implies s.proposed(next.proposals[k].command) by {
                    if values.contains_key(k) {
                        lemma_gathered_was_proposed(s, src, k);
                    } else {
                        assert(s.proposed(l.proposals[k].command));
                    }
                }
            } else {
                assert(next == l);
                assert forall|y: ProcessId| #[trigger]
                    s.commanders.contains_key(y) && s.commanders[y].leader
                        == p implies t.inv_follows(y) by {
                    assert(s.inv_follows(y));
                }
                if next.active {
                    let x = choose|x: ProcessId| s.backs(x, p);
                    assert(t.backs(x, p));
                }
                assert forall|k: SlotNumber| #[trigger]
                    next.proposals.contains_key(k) implies s.proposed(next.proposals[k].command) by {
                    assert(s.proposed(l.proposals[k].command));
                }
            }
        },
        MessageView::Preempt(_, b) => {
            lemma_ballot_order_total(l.ballot, b);
            if l.ballot.below(b) {
                lemma_ballot_order_total(l.ballot, next.ballot);
                assert forall|y: ProcessId| #[trigger]
                    s.commanders.contains_key(y) && s.commanders[y].leader
                        == p implies t.inv_follows(y) by {
                    assert(s.inv_commander(y));
                    lemma_ballot_order_total(s.commanders[y].ballot, l.ballot);
                    lemma_ballot_order_transitive(s.commanders[y].ballot, l.ballot, next.ballot);
                    lemma_ballot_order_total(s.commanders[y].ballot, next.ballot);
                }
            } else {
                assert(next == l);
                assert forall|y: ProcessId| #[trigger]
                    s.commanders.contains_key(y) && s.commanders[y].leader
                        == p implies t.inv_follows(y) by {
                    assert(s.inv_follows(y));
                }
                if next.active {
                    let x = choose|x: ProcessId| s.backs(x, p);
                    assert(t.backs(x, p));
                }
            }
            assert forall|k: SlotNumber| #[trigger]
                next.proposals.contains_key(k) implies s.proposed(next.proposals[k].command) by {
                assert(s.proposed(l.proposals[k].command));
            }
        },
        MessageView::Decision(_, slot, _) => {
            assert forall|y: ProcessId| #[trigger]
                s.commanders.contains_key(y) && s.commanders[y].leader == p implies t.inv_follows(
                y,
            ) by {
                assert(s.inv_follows(y));
            }
            if next.active {
                let x = choose|x: ProcessId| s.backs(x, p);
                assert(t.backs(x, p));
            }
            assert forall|k: SlotNumber| #[trigger]
                next.proposals.contains_key(k) implies s.proposed(next.proposals[k].command) by {
                assert(s.proposed(l.proposals[k].command));
            }
        },
        _ => {},
    }
}

/// The workers a leader asks for are borne out by the state it moves to.
proof fn lemma_leader_spawns_fit(s: System, w: WireMessageView, ids: Seq<ProcessId>)
    requires
        leader_handles(s, w),
        s.fresh(ids),
        ids.len() == s.leaders[w.to].spawns(w.message).len(),
        leader_moved(s, w.to, s.leaders[w.to].next(w.message)).inv(),
    ensures
        workers_fit(
            leader_moved(s, w.to, s.leaders[w.to].next(w.message)),
            w.to,
            s.leaders[w.to].spawns(w.message),
            ids,
        ),
{
    let p = w.to;
    let l = s.leaders[p];
    let m = w.message;
    let next = l.next(m);
    let t = leader_moved(s, p, next);
    let spawns = l.spawns(m);
    assert(s.inv_roles());
    assert(s.inv_message(w));
    match m {
        MessageView::Propose(_, slot, c) => {
            if !l.proposals.contains_key(slot) && l.active {
                let x = choose|x: ProcessId| s.backs(x, p);
                assert(s.inv_scout(x));
                lemma_won_ballot_is_safe(s, x, slot, c);
                lemma_safe_whatever_leaders(s, t, l.ballot, slot, c);
                assert(spawns[0] == SpawnView::Commander(l.ballot, slot, c));
                assert forall|i: int| 0 <= i < spawns.len() implies spawn_fits(
                    t,
                    p,
                    #[trigger] spawns[i],
                ) by {}
            }
        },
        MessageView::Adopt(src, b, values) => {
            if b == l.ballot {
                assert(s.inv_scout(src));
                let pending = LeaderView::pending(next.proposals);
                let slots = ascending(pending);
                lemma_ascending(pending);
                assert forall|i: int| 0 <= i < spawns.len() implies spawn_fits(
                    t,
                    p,
                    #[trigger] spawns[i],
                ) by {
                    let slot = slots[i];
                    assert(slots.contains(slot));
                    assert(pending.contains(slot));
                    let c = next.proposals[slot].command;
                    assert(spawns[i] == SpawnView::Commander(l.ballot, slot, c));
                    lemma_won_ballot_is_safe(s, src, slot, c);
                    lemma_safe_whatever_leaders(s, t, l.ballot, slot, c);
                }
                assert forall|i: int, j: int|
                    0 <= i < spawns.len() && 0 <= j < spawns.len() && i != j implies !(
                #[trigger] spawns[i] is Scout && #[trigger] spawns[j] is Scout) by {
                    assert(spawns[i] == SpawnView::Commander(
                        l.ballot,
                        slots[i],
                        next.proposals[slots[i]].command,
                    ));
                }
            }
        },
        MessageView::Preempt(_, b) => {
            if l.ballot.below(b) {
                assert(spawns[0] == SpawnView::Scout(next.ballot));
                lemma_ballot_order_total(l.ballot, next.ballot);
                assert forall|x: ProcessId| #[trigger]
                    t.scouts.contains_key(x) implies t.scouts[x].ballot != next.ballot by {
                    assert(s.inv_scout(x));
                    if s.scouts[x].ballot == next.ballot {
                        lemma_ballot_order_transitive(s.scouts[x].ballot, l.ballot, next.ballot);
                        lemma_ballot_order_total(next.ballot, l.ballot);
                    }
                }
                assert forall|i: int| 0 <= i < spawns.len() implies spawn_fits(
                    t,
                    p,
                    #[trigger] spawns[i],
                ) by {}
            }
        },
        _ => {},
    }
}

/// A leader's step keeps the invariants.
pub proof fn lemma_leader_step(s: System, w: WireMessageView, ids: Seq<ProcessId>)
    requires
        leader_handles(s, w),
        s.fresh(ids),
        ids.len() == s.leaders[w.to].spawns(w.message).len(),
    ensures
        leader_moved(s, w.to, s.leaders[w.to].next(w.message)).with_workers(
            w.to,
            s.leaders[w.to].spawns(w.message),
            ids,
        ).inv(),
{
    let next = s.leaders[w.to].next(w.message);
    lemma_leader_next_fits(s, w);
    lemma_leader_moves(s, w.to, next);
    lemma_leader_spawns_fit(s, w, ids);
    lemma_workers_started(leader_moved(s, w.to, next), w.to, s.leaders[w.to].spawns(w.message), ids);
}

/// The start of a leader keeps the invariants.
pub proof fn lemma_boot(s: System, leader: ProcessId, id: ProcessId)
    requires
        s.inv(),
        s.config.leaders.contains(leader),
        !s.booted.contains(leader),
        s.fresh(seq![id]),
    ensures
        (System { booted: s.booted.insert(leader), ..s }).with_workers(
            leader,
            seq![SpawnView::Scout(s.leaders[leader].ballot)],
            seq![id],
        ).inv(),
{
    let t = System { booted: s.booted.insert(leader), ..s };
    let same = leader_moved(s, leader, s.leaders[leader]);
    assert(s.inv_roles());
    assert(s.leaders.contains_key(leader));
    lemma_booted(s, leader);
    let spawns = seq![SpawnView::Scout(s.leaders[leader].ballot)];
    assert forall|x: ProcessId| #[trigger] t.scouts.contains_key(x) implies t.scouts[x].ballot
        != t.leaders[leader].ballot by {
        assert(s.inv_scout(x));
    }
    assert forall|i: int| 0 <= i < spawns.len() implies spawn_fits(t, leader, #[trigger] spawns[i]) by {
        assert(spawns[i] == SpawnView::Scout(s.leaders[leader].ballot));
    }
    lemma_workers_started(t, leader, spawns, seq![id]);
}

/// Marking a leader as started keeps the invariants.
proof fn lemma_booted(s: System, leader: ProcessId)
    requires
        s.inv(),
    ensures
        (System { booted: s.booted.insert(leader), ..s }).inv(),
{
    let t = System { booted: s.booted.insert(leader), ..s };
    assert(s.inv_roles());
    assert(t.inv_roles());
    assert forall|x: ProcessId| #[trigger] t.scouts.contains_key(x) implies t.inv_scout(x) by {
        assert(s.inv_scout(x));
    }
    assert forall|y: ProcessId| #[trigger] t.commanders.contains_key(y) implies t.inv_commander(
        y,
    ) by {
        assert(s.inv_commander(y));
    }
    assert(t.inv_workers());
    assert forall|v: Vote| #[trigger] t.votes.contains(v) implies t.inv_vote(v) by {
        assert(s.inv_vote(v));
        let y = choose|y: ProcessId| s.commands(y, v.ballot, v.slot, v.command);
        assert(t.commands(y, v.ballot, v.slot, v.command));
    }
    assert forall|a: ProcessId| #[trigger] t.acceptors.contains_key(a) implies t.inv_acceptor(a) by {
        assert(s.inv_acceptor(a));
    }
    assert(t.inv_votes());
    assert forall|w: WireMessageView| #[trigger] t.network.contains(w) implies t.inv_message(w) by {
        assert(s.inv_message(w));
        match w.message {
            MessageView::P1B(a, b, accepted) => {
                assert forall|v: Vote| #[trigger]
                    t.votes.contains(v) && v.acceptor == a && v.ballot.below(
                        b,
                    ) implies accepted.contains_key(v.slot) && v.ballot.at_most(
                    accepted[v.slot].ballot,
                ) by {}
                assert forall|slot: SlotNumber| #[trigger]
                    accepted.contains_key(slot) implies exists|a: ProcessId|
                    t.voted(a, accepted[slot].ballot, slot, accepted[slot].command) by {
                    let a = choose|a: ProcessId|
                        s.voted(a, accepted[slot].ballot, slot, accepted[slot].command);
                    assert(t.voted(a, accepted[slot].ballot, slot, accepted[slot].command));
                }
            },
            MessageView::Propose(_, _, c) => {
                lemma_proposed_same(s, t, c);
            },
            _ => {},
        }
    }
    assert forall|x: ProcessId| #[trigger] t.scouts.contains_key(x) implies t.inv_gathered(x) by {
        assert(s.inv_gathered(x));
        let scout = s.scouts[x];
        assert forall|slot: SlotNumber| #[trigger]
            scout.values.contains_key(slot) implies exists|a: ProcessId|
            t.voted(a, scout.values[slot].ballot, slot, scout.values[slot].command) by {
            let a = choose|a: ProcessId|
                s.voted(a, scout.values[slot].ballot, slot, scout.values[slot].command);
            assert(t.voted(a, scout.values[slot].ballot, slot, scout.values[slot].command));
        }
        assert forall|a: ProcessId| #[trigger]
            t.counted(scout.wait, a) implies scout.ballot.at_most(t.acceptors[a].ballot)
            && t.shows_votes_of(scout.values, a, scout.ballot) by {
            assert(s.counted(scout.wait, a));
            assert(s.shows_votes_of(scout.values, a, scout.ballot));
        }
    }
    assert forall|y: ProcessId| #[trigger] t.commanders.contains_key(y) implies t.inv_counted(y)
        && t.inv_follows(y) by {
        assert(s.inv_counted(y) && s.inv_follows(y));
        assert forall|a: ProcessId| #[trigger] t.counted(t.commanders[y].wait, a) implies t.voted(
            a,
            t.commanders[y].ballot,
            t.commanders[y].slot,
            t.commanders[y].command,
        ) by {
            assert(s.counted(s.commanders[y].wait, a));
        }
    }
    assert forall|l: ProcessId| #[trigger]
        t.leaders.contains_key(l) && t.leaders[l].active implies exists|x: ProcessId|
        t.backs(x, l) by {
        let x = choose|x: ProcessId| s.backs(x, l);
        assert(t.backs(x, l));
    }
    assert(t.inv_progress());
    assert forall|y: ProcessId| #[trigger] t.commanders.contains_key(y) implies t.safe_at(
        t.commanders[y].ballot,
        t.commanders[y].slot,
        t.commanders[y].command,
    ) by {
        let k = s.commanders[y];
        assert(s.safe_at(k.ballot, k.slot, k.command));
        lemma_safe_whatever_leaders(s, t, k.ballot, k.slot, k.command);
    }
    assert forall|y: ProcessId| #[trigger] t.commanders.contains_key(y) implies t.proposed(
        t.commanders[y].command,
    ) by {
        lemma_proposed_same(s, t, s.commanders[y].command);
    }
    assert forall|l: ProcessId, slot: SlotNumber|
        t.leaders.contains_key(l) && #[trigger] t.leaders[l].proposals.contains_key(
            slot,
        ) implies t.proposed(t.leaders[l].proposals[slot].command) by {
        lemma_proposed_same(s, t, s.leaders[l].proposals[slot].command);
    }
    assert forall|r: ProcessId| #[trigger] t.replicas.contains_key(r) implies t.inv_replica(r) by {
        assert(s.inv_replica(r));
        assert forall|slot: SlotNumber| #[trigger]
            t.replicas[r].decisions.contains_key(slot) implies t.decided(
            slot,
            t.replicas[r].decisions[slot],
        ) by {
            lemma_decided_stays(s, t, slot, s.replicas[r].decisions[slot]);
        }
    }
}

} // verus!
