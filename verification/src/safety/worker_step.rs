//! The steps of scouts and commanders keep the invariants.

use crate::ds::lemma_merge_takes_maximum;
use crate::env::ProcessId;
use crate::leader::{majority_answered, CommanderView, Phase, ScoutView};
use crate::message::{broadcast_views, MessageView, WireMessageView};
use crate::pval::{lemma_ballot_order_transitive, BallotNumber, CommandView, SlotNumber};
use crate::safety::frame::{lemma_decided_stays, lemma_proposed_same, lemma_sending};
use crate::safety::model::{System, Vote};
use vstd::prelude::*;

verus! {

/// The cluster with the scout `p` in the state `next`.
pub open spec fn scout_moved(s: System, p: ProcessId, next: ScoutView) -> System {
    System { scouts: s.scouts.insert(p, next), ..s }
}

/// A scout that has not finished may move on: it may count more acceptors
/// and gather more, and it may finish, as long as what it has gathered is
/// in order.
pub open spec fn scout_may_become(s: System, p: ProcessId, next: ScoutView) -> bool {
    let now = s.scouts[p];
    &&& s.inv()
    &&& s.scouts.contains_key(p)
    &&& now.phase != Phase::Finished
    &&& next.me == now.me
    &&& next.leader == now.leader
    &&& next.ballot == now.ballot
    &&& next.total == now.total
    &&& next.phase != Phase::Created
    &&& forall|a: ProcessId| #[trigger] next.wait.contains(a) ==> now.wait.contains(a)
    &&& scout_moved(s, p, next).inv_gathered(p)
}

/// What was settled stays settled when a scout that had not finished moves.
proof fn lemma_scout_settled(
    s: System,
    p: ProcessId,
    next: ScoutView,
    b: BallotNumber,
    slot: SlotNumber,
    c: CommandView,
)
    requires
        scout_may_become(s, p, next),
        s.settled(b, slot, c),
    ensures
        scout_moved(s, p, next).settled(b, slot, c),
{
    let t = scout_moved(s, p, next);
    if exists|a: ProcessId| s.voted(a, b, slot, c) {
        let a = choose|a: ProcessId| s.voted(a, b, slot, c);
        assert(t.voted(a, b, slot, c));
    } else {
        let x = choose|x: ProcessId| s.blocks(x, b, slot);
        assert(x != p);
        assert forall|a: ProcessId| #[trigger] t.counted(t.scouts[x].wait, a) implies !t.voted_at(
            a,
            b,
            slot,
        ) by {
            assert(s.counted(s.scouts[x].wait, a));
            if t.voted_at(a, b, slot) {
                let c0 = choose|c0: CommandView| t.voted(a, b, slot, c0);
                assert(s.voted(a, b, slot, c0));
            }
        }
        assert(t.blocks(x, b, slot));
    }
}

/// A scout that moves as it may keeps the invariants.
pub proof fn lemma_scout_moves(s: System, p: ProcessId, next: ScoutView)
    requires
        scout_may_become(s, p, next),
    ensures
        scout_moved(s, p, next).inv(),
{
    let t = scout_moved(s, p, next);
    assert(s.inv_roles());
    assert(s.inv_scout(p));
    assert(t.inv_roles());
    assert forall|x: ProcessId| #[trigger] t.scouts.contains_key(x) implies t.inv_scout(x) by {
        assert(s.inv_scout(x));
    }
    assert forall|y: ProcessId| #[trigger] t.commanders.contains_key(y) implies t.inv_commander(
        y,
    ) by {
        assert(s.inv_commander(y));
    }
    assert forall|x: ProcessId, z: ProcessId|
        #![trigger t.scouts[x], t.scouts[z]]
        t.scouts.contains_key(x) && t.scouts.contains_key(z) && t.scouts[x].ballot
            == t.scouts[z].ballot implies x == z by {
        assert(s.scouts[x].ballot == s.scouts[z].ballot);
    }
    assert(t.inv_workers());
    assert forall|v: Vote| #[trigger] t.votes.contains(v) implies t.inv_vote(v) by {
        assert(s.inv_vote(v));
        let y = choose|y: ProcessId| s.commands(y, v.ballot, v.slot, v.command);
        assert(t.commands(y, v.ballot, v.slot, v.command));
    }
    assert forall|a: ProcessId| #[trigger] t.acceptors.contains_key(a) implies t.inv_acceptor(a) by {
        assert(s.inv_acceptor(a));
    }
    assert(t.inv_votes());
    assert forall|w: WireMessageView| #[trigger] t.network.contains(w) implies t.inv_message(w) by {
        assert(s.inv_message(w));
        match w.message {
            MessageView::P1B(a, b, accepted) => {
                assert forall|v: Vote| #[trigger]
                    t.votes.contains(v) && v.acceptor == a && v.ballot.below(
                        b,
                    ) implies accepted.contains_key(v.slot) && v.ballot.at_most(
                    accepted[v.slot].ballot,
                ) by {}
                assert forall|slot: SlotNumber| #[trigger]
                    accepted.contains_key(slot) implies exists|a: ProcessId|
                    t.voted(a, accepted[slot].ballot, slot, accepted[slot].command) by {
                    let a = choose|a: ProcessId|
                        s.voted(a, accepted[slot].ballot, slot, accepted[slot].command);
                    assert(t.voted(a, accepted[slot].ballot, slot, accepted[slot].command));
                }
            },
            MessageView::Propose(_, _, c) => {
                lemma_proposed_same(s, t, c);
            },
            _ => {},
        }
    }
    assert forall|x: ProcessId| #[trigger] t.scouts.contains_key(x) implies t.inv_gathered(x) by {
        if x != p {
            assert(s.inv_gathered(x));
            let scout = s.scouts[x];
            assert forall|slot: SlotNumber| #[trigger]
                scout.values.contains_key(slot) implies exists|a: ProcessId|
                t.voted(a, scout.values[slot].ballot, slot, scout.values[slot].command) by {
                let a = choose|a: ProcessId|
                    s.voted(a, scout.values[slot].ballot, slot, scout.values[slot].command);
                assert(t.voted(a, scout.values[slot].ballot, slot, scout.values[slot].command));
            }
            assert forall|a: ProcessId| #[trigger]
                t.counted(scout.wait, a) implies scout.ballot.at_most(t.acceptors[a].ballot)
                && t.shows_votes_of(scout.values, a, scout.ballot) by {
                assert(s.counted(scout.wait, a));
                assert(s.shows_votes_of(scout.values, a, scout.ballot));
            }
        }
    }
    assert forall|y: ProcessId| #[trigger] t.commanders.contains_key(y) implies t.inv_counted(y)
        && t.inv_follows(y) by {
        assert(s.inv_counted(y) && s.inv_follows(y));
        assert forall|a: ProcessId| #[trigger] t.counted(t.commanders[y].wait, a) implies t.voted(
            a,
            t.commanders[y].ballot,
            t.commanders[y].slot,
            t.commanders[y].command,
        ) by {
            assert(s.counted(s.commanders[y].wait, a));
        }
    }
    assert forall|l: ProcessId| #[trigger]
        t.leaders.contains_key(l) && t.leaders[l].active implies exists|x: ProcessId|
        t.backs(x, l) by {
        let x = choose|x: ProcessId| s.backs(x, l);
        assert(x != p);
        assert(t.backs(x, l));
    }
    assert(t.inv_progress());
    assert forall|y: ProcessId| #[trigger] t.commanders.contains_key(y) implies t.safe_at(
        t.commanders[y].ballot,
        t.commanders[y].slot,
        t.commanders[y].command,
    ) by {
        let k = s.commanders[y];
        assert(s.safe_at(k.ballot, k.slot, k.command));
        assert forall|lower: BallotNumber| #[trigger] lower.below(k.ballot) implies t.settled(
            lower,
            k.slot,
            k.command,
        ) by {
            assert(s.settled(lower, k.slot, k.command));
            lemma_scout_settled(s, p, next, lower, k.slot, k.command);
        }
    }
    assert forall|y: ProcessId| #[trigger] t.commanders.contains_key(y) implies t.proposed(
        t.commanders[y].command,
    ) by {
        lemma_proposed_same(s, t, s.commanders[y].command);
    }
    assert forall|l: ProcessId, slot: SlotNumber|
        t.leaders.contains_key(l) && #[trigger] t.leaders[l].proposals.contains_key(
            slot,
        ) implies t.proposed(t.leaders[l].proposals[slot].command) by {
        lemma_proposed_same(s, t, s.leaders[l].proposals[slot].command);
    }
    assert forall|r: ProcessId| #[trigger] t.replicas.contains_key(r) implies t.inv_replica(r) by {
        assert(s.inv_replica(r));
        assert forall|slot: SlotNumber| #[trigger]
            t.replicas[r].decisions.contains_key(slot) implies t.decided(
            slot,
            t.replicas[r].decisions[slot],
        ) by {
            lemma_decided_stays(s, t, slot, s.replicas[r].decisions[slot]);
        }
    }
}

/// What the step is about: scout `w.to` handles `w.message`, which is in
/// the network.
pub open spec fn scout_handles(s: System, w: WireMessageView) -> bool {
    &&& s.inv()
    &&& s.network.contains(w)
    &&& s.scouts.contains_key(w.to)
    &&& s.scouts[w.to].handles(w.message)
}

/// What a waiting scout has gathered after a message is in order.
proof fn lemma_scout_gathers(s: System, w: WireMessageView)
    requires
        scout_handles(s, w),
        s.scouts[w.to].phase == Phase::Waiting,
    ensures
        scout_may_become(s, w.to, s.scouts[w.to].next(w.message)),
{
    let p = w.to;
    let now = s.scouts[p];
    let next = now.next(w.message);
    let t = scout_moved(s, p, next);
    assert(s.inv_scout(p));
    assert(s.inv_gathered(p));
    assert(s.inv_message(w));
    match w.message {
        MessageView::P1B(a, b, accepted) => {
            if b == now.ballot && now.wait.contains(a) {
                assert forall|slot: SlotNumber| #[trigger]
                    next.values.contains_key(slot) implies exists|q: ProcessId|
                    t.voted(q, next.values[slot].ballot, slot, next.values[slot].command) by {
                    lemma_merge_takes_maximum(now.values, accepted, slot);
                    if now.values.contains_key(slot) && next.values[slot] == now.values[slot] {
                        let q = choose|q: ProcessId|
                            s.voted(q, now.values[slot].ballot, slot, now.values[slot].command);
                        assert(t.voted(q, next.values[slot].ballot, slot, next.values[slot].command));
                    } else {
                        let q = choose|q: ProcessId|
                            s.voted(q, accepted[slot].ballot, slot, accepted[slot].command);
                        assert(t.voted(q, next.values[slot].ballot, slot, next.values[slot].command));
                    }
                }
                assert forall|q: ProcessId| #[trigger]
                    t.counted(next.wait, q) implies next.ballot.at_most(t.acceptors[q].ballot)
                    && t.shows_votes_of(next.values, q, next.ballot) by {
                    if q == a {
                        assert forall|v: Vote| #[trigger]
                            t.votes.contains(v) && v.acceptor == q && v.ballot.below(
                                next.ballot,
                            ) implies next.values.contains_key(v.slot) && v.ballot.at_most(
                            next.values[v.slot].ballot,
                        ) by {
                            lemma_merge_takes_maximum(now.values, accepted, v.slot);
                            lemma_ballot_order_transitive(
                                v.ballot,
                                accepted[v.slot].ballot,
                                next.values[v.slot].ballot,
                            );
                        }
                    } else {
                        assert(s.counted(now.wait, q));
                        assert(s.shows_votes_of(now.values, q, now.ballot));
                        assert forall|v: Vote| #[trigger]
                            t.votes.contains(v) && v.acceptor == q && v.ballot.below(
                                next.ballot,
                            ) implies next.values.contains_key(v.slot) && v.ballot.at_most(
                            next.values[v.slot].ballot,
                        ) by {
                            lemma_merge_takes_maximum(now.values, accepted, v.slot);
                            lemma_ballot_order_transitive(
                                v.ballot,
                                now.values[v.slot].ballot,
                                next.values[v.slot].ballot,
                            );
                        }
                    }
                }
            } else {
                assert(next.values == now.values && next.wait == now.wait);
                assert forall|slot: SlotNumber| #[trigger]
                    next.values.contains_key(slot) implies exists|q: ProcessId|
                    t.voted(q, next.values[slot].ballot, slot, next.values[slot].command) by {
                    let q = choose|q: ProcessId|
                        s.voted(q, now.values[slot].ballot, slot, now.values[slot].command);
                    assert(t.voted(q, next.values[slot].ballot, slot, next.values[slot].command));
                }
                assert forall|q: ProcessId| #[trigger]
                    t.counted(next.wait, q) implies next.ballot.at_most(t.acceptors[q].ballot)
                    && t.shows_votes_of(next.values, q, next.ballot) by {
                    assert(s.counted(now.wait, q));
                    assert(s.shows_votes_of(now.values, q, now.ballot));
                }
            }
        },
        _ => {},
    }
}

/// A scout's step keeps the invariants.
pub proof fn lemma_scout_step(s: System, w: WireMessageView)
    requires
        scout_handles(s, w),
    ensures
        scout_moved(s, w.to, s.scouts[w.to].next(w.message)).with_sent(
            s.scouts[w.to].output(w.message),
        ).inv(),
{
    let p = w.to;
    let now = s.scouts[p];
    let next = now.next(w.message);
    let out = now.output(w.message);
    let t = scout_moved(s, p, next);
    assert(s.inv_scout(p));
    if now.phase == Phase::Waiting {
        lemma_scout_gathers(s, w);
        lemma_scout_moves(s, p, next);
        assert forall|m: WireMessageView| #[trigger] out.contains(m) implies t.inv_message(m) by {
            let i = choose|i: int| 0 <= i < out.len() && out[i] == m;
            assert(out[0] == m);
        }
        lemma_sending(t, out);
    } else {
        assert(t.scouts =~= s.scouts);
        assert(t == s);
        assert forall|m: WireMessageView| #[trigger] out.contains(m) implies t.inv_message(m) by {
            let i = choose|i: int| 0 <= i < out.len() && out[i] == m;
        }
        lemma_sending(t, out);
    }
}

/// The cluster with the commander `p` in the state `next`.
pub open spec fn commander_moved(s: System, p: ProcessId, next: CommanderView) -> System {
    System { commanders: s.commanders.insert(p, next), ..s }
}

/// A commander that has not finished may move on: it may count more
/// acceptors, and it may finish, as long as those it has counted have voted
/// for its command.
pub open spec fn commander_may_become(s: System, p: ProcessId, next: CommanderView) -> bool {
    let now = s.commanders[p];
    &&& s.inv()
    &&& s.commanders.contains_key(p)
    &&& now.phase != Phase::Finished
    &&& next.me == now.me
    &&& next.leader == now.leader
    &&& next.ballot == now.ballot
    &&& next.slot == now.slot
    &&& next.command == now.command
    &&& next.total == now.total
    &&& next.replicas == now.replicas
    &&& next.phase != Phase::Created
    &&& forall|a: ProcessId| #[trigger] next.wait.contains(a) ==> now.wait.contains(a)
    &&& commander_moved(s, p, next).inv_counted(p)
}

/// What was settled stays settled when a commander moves.
proof fn lemma_commander_settled(
    s: System,
    p: ProcessId,
    next: CommanderView,
    b: BallotNumber,
    slot: SlotNumber,
    c: CommandView,
)
    requires
        commander_may_become(s, p, next),
        s.settled(b, slot, c),
    ensures
        commander_moved(s, p, next).settled(b, slot, c),
{
    let t = commander_moved(s, p, next);
    if exists|a: ProcessId| s.voted(a, b, slot, c) {
        let a = choose|a: ProcessId| s.voted(a, b, slot, c);
        assert(t.voted(a, b, slot, c));
    } else {
        let x = choose|x: ProcessId| s.blocks(x, b, slot);
        assert forall|a: ProcessId| #[trigger] t.counted(t.scouts[x].wait, a) implies !t.voted_at(
            a,
            b,
            slot,
        ) by {
            assert(s.counted(s.scouts[x].wait, a));
            if t.voted_at(a, b, slot) {
                let c0 = choose|c0: CommandView| t.voted(a, b, slot, c0);
                assert(s.voted(a, b, slot, c0));
            }
        }
        assert(t.blocks(x, b, slot));
    }
}

/// A commander that moves as it may keeps the invariants.
pub proof fn lemma_commander_moves(s: System, p: ProcessId, next: CommanderView)
    requires
        commander_may_become(s, p, next),
    ensures
        commander_moved(s, p, next).inv(),
{
    let t = commander_moved(s, p, next);
    assert(s.inv_roles());
    assert(s.inv_commander(p));
    assert(t.inv_roles());
    assert forall|x: ProcessId| #[trigger] t.scouts.contains_key(x) implies t.inv_scout(x) by {
        assert(s.inv_scout(x));
    }
    assert forall|y: ProcessId| #[trigger] t.commanders.contains_key(y) implies t.inv_commander(
        y,
    ) by {
        assert(s.inv_commander(y));
    }
    assert(t.inv_workers());
    assert forall|v: Vote| #[trigger] t.votes.contains(v) implies t.inv_vote(v) by {
        assert(s.inv_vote(v));
        let y = choose|y: ProcessId| s.commands(y, v.ballot, v.slot, v.command);
        assert(t.commands(y, v.ballot, v.slot, v.command));
    }
    assert forall|a: ProcessId| #[trigger] t.acceptors.contains_key(a) implies t.inv_acceptor(a) by {
        assert(s.inv_acceptor(a));
    }
    assert(t.inv_votes());
    assert forall|w: WireMessageView| #[trigger] t.network.contains(w) implies t.inv_message(w) by {
        assert(s.inv_message(w));
        match w.message {
            MessageView::P1B(a, b, accepted) => {
                assert forall|v: Vote| #[trigger]
                    t.votes.contains(v) && v.acceptor == a && v.ballot.below(
                        b,
                    ) implies accepted.contains_key(v.slot) && v.ballot.at_most(
                    accepted[v.slot].ballot,
                ) by {}
                assert forall|slot: SlotNumber| #[trigger]
                    accepted.contains_key(slot) implies exists|a: ProcessId|
                    t.voted(a, accepted[slot].ballot, slot, accepted[slot].command) by {
                    let a = choose|a: ProcessId|
                        s.voted(a, accepted[slot].ballot, slot, accepted[slot].command);
                    assert(t.voted(a, accepted[slot].ballot, slot, accepted[slot].command));
                }
            },
            MessageView::Propose(_, _, c) => {
                lemma_proposed_same(s, t, c);
            },
            _ => {},
        }
    }
    assert forall|x: ProcessId| #[trigger] t.scouts.contains_key(x) implies t.inv_gathered(x) by {
        assert(s.inv_gathered(x));
        let scout = s.scouts[x];
        assert forall|slot: SlotNumber| #[trigger]
            scout.values.contains_key(slot) implies exists|a: ProcessId|
            t.voted(a, scout.values[slot].ballot, slot, scout.values[slot].command) by {
            let a = choose|a: ProcessId|
                s.voted(a, scout.values[slot].ballot, slot, scout.values[slot].command);
            assert(t.voted(a, scout.values[slot].ballot, slot, scout.values[slot].command));
        }
        assert forall|a: ProcessId| #[trigger]
            t.counted(scout.wait, a) implies scout.ballot.at_most(t.acceptors[a].ballot)
            && t.shows_votes_of(scout.values, a, scout.ballot) by {
            assert(s.counted(scout.wait, a));
            assert(s.shows_votes_of(scout.values, a, scout.ballot));
        }
    }
    assert forall|y: ProcessId| #[trigger] t.commanders.contains_key(y) implies t.inv_counted(y)
        && t.inv_follows(y) by {
        assert(s.inv_counted(y) && s.inv_follows(y));
        if y != p {
            assert forall|a: ProcessId| #[trigger]
                t.counted(t.commanders[y].wait, a) implies t.voted(
                a,
                t.commanders[y].ballot,
                t.commanders[y].slot,
                t.commanders[y].command,
            ) by {
                assert(s.counted(s.commanders[y].wait, a));
            }
        }
    }
    assert forall|l: ProcessId| #[trigger]
        t.leaders.contains_key(l) && t.leaders[l].active implies exists|x: ProcessId|
        t.backs(x, l) by {
        let x = choose|x: ProcessId| s.backs(x, l);
        assert(t.backs(x, l));
    }
    assert forall|y: ProcessId, z: ProcessId|
        #![trigger t.commanders[y], t.commanders[z]]
        t.commanders.contains_key(y) && t.commanders.contains_key(z) && t.commanders[y].ballot
            == t.commanders[z].ballot && t.commanders[y].slot
            == t.commanders[z].slot implies t.commanders[y].command == t.commanders[z].command by {
        assert(s.commanders[y].command == s.commanders[z].command);
    }
    assert(t.inv_progress());
    assert forall|y: ProcessId| #[trigger] t.commanders.contains_key(y) implies t.safe_at(
        t.commanders[y].ballot,
        t.commanders[y].slot,
        t.commanders[y].command,
    ) by {
        let k = s.commanders[y];
        assert(s.safe_at(k.ballot, k.slot, k.command));
        assert forall|lower: BallotNumber| #[trigger] lower.below(k.ballot) implies t.settled(
            lower,
            k.slot,
            k.command,
        ) by {
            assert(s.settled(lower, k.slot, k.command));
            lemma_commander_settled(s, p, next, lower, k.slot, k.command);
        }
    }
    assert forall|y: ProcessId| #[trigger] t.commanders.contains_key(y) implies t.proposed(
        t.commanders[y].command,
    ) by {
        lemma_proposed_same(s, t, s.commanders[y].command);
    }
    assert forall|l: ProcessId, slot: SlotNumber|
        t.leaders.contains_key(l) && #[trigger] t.leaders[l].proposals.contains_key(
            slot,
        ) implies t.proposed(t.leaders[l].proposals[slot].command) by {
        lemma_proposed_same(s, t, s.leaders[l].proposals[slot].command);
    }
    assert forall|r: ProcessId| #[trigger] t.replicas.contains_key(r) implies t.inv_replica(r) by {
        assert(s.inv_replica(r));
        assert forall|slot: SlotNumber| #[trigger]
            t.replicas[r].decisions.contains_key(slot) implies t.decided(
            slot,
            t.replicas[r].decisions[slot],
        ) by {
            lemma_decided_stays(s, t, slot, s.replicas[r].decisions[slot]);
        }
    }
}

/// What the step is about: commander `w.to` handles `w.message`, which is
/// in the network.
pub open spec fn commander_handles(s: System, w: WireMessageView) -> bool {
    &&& s.inv()
    &&& s.network.contains(w)
    &&& s.commanders.contains_key(w.to)
    &&& s.commanders[w.to].handles(w.message)
}

/// Every message of a commander's verdict carries its decision.
proof fn lemma_verdict_is_decision(k: CommanderView, m: WireMessageView)
    requires
        k.verdict().contains(m),
    ensures
        majority_answered(k.wait, k.total),
        m.message == k.decision(),
{
    let out = k.verdict();
    let i = choose|i: int| 0 <= i < out.len() && out[i] == m;
    if i < k.replicas.len() {
        assert(out[i] == broadcast_views(k.decision(), k.replicas)[i]);
    }
}

/// A commander's step keeps the invariants.
pub proof fn lemma_commander_step(s: System, w: WireMessageView)
    requires
        commander_handles(s, w),
    ensures
        commander_moved(s, w.to, s.commanders[w.to].next(w.message)).with_sent(
            s.commanders[w.to].output(w.message),
        ).inv(),
{
    let p = w.to;
    let now = s.commanders[p];
    let next = now.next(w.message);
    let out = now.output(w.message);
    let t = commander_moved(s, p, next);
    assert(s.inv_commander(p));
    assert(s.inv_counted(p));
    assert(s.inv_message(w));
    if now.phase == Phase::Waiting {
        assert forall|a: ProcessId| #[trigger] t.counted(next.wait, a) implies t.voted(
            a,
            next.ballot,
            next.slot,
            next.command,
        ) by {
            if now.wait.contains(a) {
            } else {
                assert(s.counted(now.wait, a));
            }
        }
        lemma_commander_moves(s, p, next);
        assert forall|m: WireMessageView| #[trigger] out.contains(m) implies t.inv_message(m) by {
            match w.message {
                MessageView::P2B(a, b, _) => {
                    if b == now.ballot {
                        lemma_verdict_is_decision(now.heard(a), m);
                    } else {
                        let i = choose|i: int| 0 <= i < out.len() && out[i] == m;
                        assert(out[0] == m);
                    }
                },
                _ => {
                    let i = choose|i: int| 0 <= i < out.len() && out[i] == m;
                },
            }
        }
        lemma_sending(t, out);
    } else {
        assert(t.commanders =~= s.commanders);
        assert(t == s);
        assert forall|m: WireMessageView| #[trigger] out.contains(m) implies t.inv_message(m) by {
            let i = choose|i: int| 0 <= i < out.len() && out[i] == m;
        }
        lemma_sending(t, out);
    }
}

} // verus!
