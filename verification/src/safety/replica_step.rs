//! A replica's step keeps the invariants.

use crate::env::ProcessId;
use crate::message::{MessageView, ProtocolError, WireMessageView};
use crate::pval::{BallotNumber, CommandView, SlotNumber};
use crate::replica::lemma_replica_step;
use crate::safety::agreement::lemma_one_decision_per_slot;
use crate::safety::frame::{lemma_decided_stays, lemma_sending};
use crate::safety::model::{System, Vote};
use vstd::prelude::*;

verus! {

/// The cluster after the replica `p` has handled `m`, before what it sends
/// is sent.
pub open spec fn replica_moved(s: System, p: ProcessId, m: MessageView) -> System {
    let next = s.replicas[p].next(m, s.config.leaders);
    System {
        replicas: s.replicas.insert(p, next),
        log: s.log.insert(p, System::extended_log(s.log[p], s.replicas[p], next)),
        ..s
    }
}

/// What the step is about: replica `w.to` handles `w.message`, which is in
/// the network.
pub open spec fn replica_handles(s: System, w: WireMessageView) -> bool {
    &&& s.inv()
    &&& s.network.contains(w)
    &&& s.replicas.contains_key(w.to)
}

/// What was proposed before the step is proposed after it.
proof fn lemma_still_proposed(s: System, w: WireMessageView, c: CommandView)
    requires
        replica_handles(s, w),
        s.proposed(c),
    ensures
        replica_moved(s, w.to, w.message).proposed(c),
{
    let t = replica_moved(s, w.to, w.message);
    let (r, slot) = choose|r: ProcessId, slot: SlotNumber|
        s.replicas.contains_key(r) && #[trigger] s.replicas[r].proposals.contains_key(slot)
            && s.replicas[r].proposals[slot] == c;
    lemma_replica_step(s.replicas[w.to], w.message, s.config.leaders);
    assert(t.replicas.contains_key(r) && t.replicas[r].proposals.contains_key(slot));
}

/// What was settled before the step is settled after it.
proof fn lemma_still_settled(s: System, w: WireMessageView, b: BallotNumber, slot: SlotNumber, c: CommandView)
    requires
        replica_handles(s, w),
        s.settled(b, slot, c),
    ensures
        replica_moved(s, w.to, w.message).settled(b, slot, c),
{
    let t = replica_moved(s, w.to, w.message);
    if exists|a: ProcessId| s.voted(a, b, slot, c) {
        let a = choose|a: ProcessId| s.voted(a, b, slot, c);
        assert(t.voted(a, b, slot, c));
    } else {
        let x = choose|x: ProcessId| s.blocks(x, b, slot);
        assert forall|a: ProcessId| #[trigger] t.counted(t.scouts[x].wait, a) implies !t.voted_at(
            a,
            b,
            slot,
        ) by {
            assert(s.counted(s.scouts[x].wait, a));
            if t.voted_at(a, b, slot) {
                let c0 = choose|c0: CommandView| t.voted(a, b, slot, c0);
                assert(s.voted(a, b, slot, c0));
            }
        }
        assert(t.blocks(x, b, slot));
    }
}

proof fn lemma_replica_core(s: System, w: WireMessageView)
    requires
        replica_handles(s, w),
    ensures
        replica_moved(s, w.to, w.message).inv_roles(),
        replica_moved(s, w.to, w.message).inv_workers(),
        replica_moved(s, w.to, w.message).inv_votes(),
        replica_moved(s, w.to, w.message).inv_network(),
        replica_moved(s, w.to, w.message).inv_origin(),
{
    let t = replica_moved(s, w.to, w.message);
    lemma_replica_step(s.replicas[w.to], w.message, s.config.leaders);
    assert(s.inv_roles());
    assert(t.inv_roles());
    assert forall|x: ProcessId| #[trigger] t.scouts.contains_key(x) implies t.inv_scout(x) by {
        assert(s.inv_scout(x));
    }
    assert forall|y: ProcessId| #[trigger] t.commanders.contains_key(y) implies t.inv_commander(
        y,
    ) by {
        assert(s.inv_commander(y));
    }
    assert(t.inv_workers());
    assert forall|v: Vote| #[trigger] t.votes.contains(v) implies t.inv_vote(v) by {
        assert(s.inv_vote(v));
        let y = choose|y: ProcessId| s.commands(y, v.ballot, v.slot, v.command);
        assert(t.commands(y, v.ballot, v.slot, v.command));
    }
    assert forall|a: ProcessId| #[trigger] t.acceptors.contains_key(a) implies t.inv_acceptor(a) by {
        assert(s.inv_acceptor(a));
    }
    assert forall|old: WireMessageView| #[trigger] t.network.contains(old) implies t.inv_message(
        old,
    ) by {
        assert(s.inv_message(old));
        match old.message {
            MessageView::P1B(a, b, accepted) => {
                assert forall|v: Vote| #[trigger]
                    t.votes.contains(v) && v.acceptor == a && v.ballot.below(
                        b,
                    ) implies accepted.contains_key(v.slot) && v.ballot.at_most(
                    accepted[v.slot].ballot,
                ) by {}
                assert forall|slot: SlotNumber| #[trigger]
                    accepted.contains_key(slot) implies exists|a: ProcessId|
                    t.voted(a, accepted[slot].ballot, slot, accepted[slot].command) by {
                    let a = choose|a: ProcessId|
                        s.voted(a, accepted[slot].ballot, slot, accepted[slot].command);
                    assert(t.voted(a, accepted[slot].ballot, slot, accepted[slot].command));
                }
            },
            MessageView::Propose(_, _, c) => {
                lemma_still_proposed(s, w, c);
            },
            _ => {},
        }
    }
    assert forall|y: ProcessId| #[trigger] t.commanders.contains_key(y) implies t.proposed(
        t.commanders[y].command,
    ) by {
        lemma_still_proposed(s, w, s.commanders[y].command);
    }
    assert forall|l: ProcessId, slot: SlotNumber|
        t.leaders.contains_key(l) && #[trigger] t.leaders[l].proposals.contains_key(
            slot,
        ) implies t.proposed(t.leaders[l].proposals[slot].command) by {
        lemma_still_proposed(s, w, s.leaders[l].proposals[slot].command);
    }
}

proof fn lemma_replica_progress(s: System, w: WireMessageView)
    requires
        replica_handles(s, w),
    ensures
        replica_moved(s, w.to, w.message).inv_progress(),
        replica_moved(s, w.to, w.message).inv_safe(),
{
    let t = replica_moved(s, w.to, w.message);
    assert forall|x: ProcessId| #[trigger] t.scouts.contains_key(x) implies t.inv_gathered(x) by {
        assert(s.inv_gathered(x));
        let scout = s.scouts[x];
        assert forall|slot: SlotNumber| #[trigger]
            scout.values.contains_key(slot) implies exists|a: ProcessId|
            t.voted(a, scout.values[slot].ballot, slot, scout.values[slot].command) by {
            let a = choose|a: ProcessId|
                s.voted(a, scout.values[slot].ballot, slot, scout.values[slot].command);
            assert(t.voted(a, scout.values[slot].ballot, slot, scout.values[slot].command));
        }
        assert forall|a: ProcessId| #[trigger]
            t.counted(scout.wait, a) implies scout.ballot.at_most(t.acceptors[a].ballot)
            && t.shows_votes_of(scout.values, a, scout.ballot) by {
            assert(s.counted(scout.wait, a));
            assert(s.shows_votes_of(scout.values, a, scout.ballot));
        }
    }
    assert forall|y: ProcessId| #[trigger] t.commanders.contains_key(y) implies t.inv_counted(y)
        && t.inv_follows(y) by {
        assert(s.inv_counted(y) && s.inv_follows(y));
        assert forall|a: ProcessId| #[trigger] t.counted(t.commanders[y].wait, a) implies t.voted(
            a,
            t.commanders[y].ballot,
            t.commanders[y].slot,
            t.commanders[y].command,
        ) by {
            assert(s.counted(s.commanders[y].wait, a));
        }
    }
    assert forall|l: ProcessId| #[trigger]
        t.leaders.contains_key(l) && t.leaders[l].active implies exists|x: ProcessId|
        t.backs(x, l) by {
        let x = choose|x: ProcessId| s.backs(x, l);
        assert(t.backs(x, l));
    }
    assert(t.inv_progress());
    assert forall|y: ProcessId| #[trigger] t.commanders.contains_key(y) implies t.safe_at(
        t.commanders[y].ballot,
        t.commanders[y].slot,
        t.commanders[y].command,
    ) by {
        let k = s.commanders[y];
        assert(s.safe_at(k.ballot, k.slot, k.command));
        assert forall|lower: BallotNumber| #[trigger] lower.below(k.ballot) implies t.settled(
            lower,
            k.slot,
            k.command,
        ) by {
            assert(s.settled(lower, k.slot, k.command));
            lemma_still_settled(s, w, lower, k.slot, k.command);
        }
    }
}

proof fn lemma_replica_records(s: System, w: WireMessageView)
    requires
        replica_handles(s, w),
        s.replicas[w.to].refusal(w.message, s.config.leaders) != Some(
            ProtocolError::UnexpectedMessage,
        ),
    ensures
        replica_moved(s, w.to, w.message).inv_replicas(),
{
    let t = replica_moved(s, w.to, w.message);
    let p = w.to;
    let before = s.replicas[p];
    let after = t.replicas[p];
    lemma_replica_step(before, w.message, s.config.leaders);
    assert forall|r: ProcessId| #[trigger] t.replicas.contains_key(r) implies t.inv_replica(r) by {
        assert(s.inv_replica(r));
        if r == p {
            assert forall|slot: SlotNumber| #[trigger]
                after.decisions.contains_key(slot) implies t.decided(
                slot,
                after.decisions[slot],
            ) by {
                if before.decisions.contains_key(slot) && after.decisions[slot]
                    == before.decisions[slot] {
                    lemma_decided_stays(s, t, slot, before.decisions[slot]);
                } else {
                    assert(t.network.contains(w) && w.message.decides(slot, after.decisions[slot]));
                }
            }
            assert forall|slot: SlotNumber| #[trigger]
                t.log[r].contains_key(slot) implies after.decisions.contains_key(slot)
                && t.log[r][slot] == after.decisions[slot] by {
                if s.log[r].contains_key(slot) {
                    match w.message {
                        MessageView::Decision(_, k, c) => {
                            if k == slot {
                                assert(s.network.contains(w) && w.message.decides(slot, c));
                                assert(s.decided(slot, c));
                                lemma_one_decision_per_slot(s, slot, before.decisions[slot], c);
                            }
                        },
                        _ => {},
                    }
                }
            }
        } else {
            assert forall|slot: SlotNumber| #[trigger]
                t.replicas[r].decisions.contains_key(slot) implies t.decided(
                slot,
                t.replicas[r].decisions[slot],
            ) by {
                lemma_decided_stays(s, t, slot, s.replicas[r].decisions[slot]);
            }
        }
    }
}

/// A replica's step keeps the invariants.
pub proof fn lemma_replica_moves(s: System, w: WireMessageView)
    requires
        replica_handles(s, w),
        s.replicas[w.to].refusal(w.message, s.config.leaders) != Some(
            ProtocolError::UnexpectedMessage,
        ),
    ensures
        replica_moved(s, w.to, w.message).with_sent(
            s.replicas[w.to].output(w.message, s.config.leaders).sent,
        ).inv(),
{
    let t = replica_moved(s, w.to, w.message);
    let out = s.replicas[w.to].output(w.message, s.config.leaders).sent;
    lemma_replica_core(s, w);
    lemma_replica_progress(s, w);
    lemma_replica_records(s, w);
    lemma_replica_step(s.replicas[w.to], w.message, s.config.leaders);
    assert forall|m: WireMessageView| #[trigger] out.contains(m) implies t.inv_message(m) by {
        let after = t.replicas[w.to];
        assert(after.stands_behind(m.message));
        match m.message {
            MessageView::Propose(_, _, c) => {
                let slot = choose|slot: SlotNumber| #[trigger]
                    after.proposals.contains_key(slot) && after.proposals[slot] == c;
                assert(t.replicas.contains_key(w.to) && t.replicas[w.to].proposals.contains_key(
                    slot,
                ));
            },
            _ => {},
        }
    }
    lemma_sending(t, out);
}

} // verus!
