//! An acceptor's step keeps the invariants.

use crate::acceptor::{lemma_acceptor_step_grows, AcceptorView};
use crate::ds::lemma_insert_keeps_maximum;
use crate::env::ProcessId;
use crate::message::{MessageView, WireMessageView};
use crate::pval::{lemma_ballot_order_total, lemma_ballot_order_transitive, BallotNumber,
    CommandView, PValueView, SlotNumber};
use crate::safety::frame::{lemma_proposed_same, lemma_sending};
use crate::safety::model::{System, Vote};
use vstd::prelude::*;

verus! {

/// The cluster after the acceptor `p` has handled `m`, before its answer
/// is sent.
pub open spec fn acceptor_moved(s: System, p: ProcessId, m: MessageView) -> System {
    System {
        acceptors: s.acceptors.insert(p, s.acceptors[p].next(m)),
        votes: match System::vote_of(s.acceptors[p], m) {
            Some(v) => s.votes.insert(v),
            None => s.votes,
        },
        ..s
    }
}

/// What the step is about: acceptor `p` handles `m`, which is in the
/// network and addressed to it.
pub open spec fn acceptor_handles(s: System, w: WireMessageView) -> bool {
    &&& s.inv()
    &&& s.network.contains(w)
    &&& s.acceptors.contains_key(w.to)
    &&& AcceptorView::handles(w.message)
}

/// How the acceptors stand after the step: the one that moved has not
/// lowered its promise nor what it holds for any slot; the others are as
/// they were.
proof fn lemma_acceptors_grow(s: System, w: WireMessageView, a: ProcessId, slot: SlotNumber)
    requires
        acceptor_handles(s, w),
        s.acceptors.contains_key(a),
    ensures
        acceptor_moved(s, w.to, w.message).acceptors.contains_key(a),
        acceptor_moved(s, w.to, w.message).acceptors[a].me == a,
        s.acceptors[a].ballot.at_most(acceptor_moved(s, w.to, w.message).acceptors[a].ballot),
        s.acceptors[a].accepted.contains_key(slot) ==> acceptor_moved(
            s,
            w.to,
            w.message,
        ).acceptors[a].accepted.contains_key(slot) && s.acceptors[a].accepted[slot].ballot.at_most(
            acceptor_moved(s, w.to, w.message).acceptors[a].accepted[slot].ballot,
        ),
        acceptor_moved(s, w.to, w.message).acceptors[a].promise_covers_accepted(),
{
    assert(s.inv_acceptor(a));
    lemma_acceptor_step_grows(s.acceptors[a], w.message, slot);
    lemma_ballot_order_total(s.acceptors[a].ballot, s.acceptors[a].ballot);
    if s.acceptors[a].accepted.contains_key(slot) {
        lemma_ballot_order_total(
            s.acceptors[a].accepted[slot].ballot,
            s.acceptors[a].accepted[slot].ballot,
        );
    }
}

/// A vote cast in the step is at or above the promise the acceptor held.
proof fn lemma_new_vote(s: System, w: WireMessageView, v: Vote)
    requires
        acceptor_handles(s, w),
        acceptor_moved(s, w.to, w.message).votes.contains(v),
        !s.votes.contains(v),
    ensures
        v.acceptor == w.to,
        s.acceptors[w.to].ballot.at_most(v.ballot),
        w.message == MessageView::P2A(w.message.id(), v.ballot, v.slot, v.command),
        s.commands(w.message.id(), v.ballot, v.slot, v.command),
        acceptor_moved(s, w.to, w.message).acceptors[w.to].accepted.contains_key(v.slot),
        v.ballot.at_most(
            acceptor_moved(s, w.to, w.message).acceptors[w.to].accepted[v.slot].ballot,
        ),
{
    assert(s.inv_message(w));
    let a = s.acceptors[w.to];
    lemma_insert_keeps_maximum(
        a.accepted,
        v.slot,
        PValueView { ballot: v.ballot, slot: v.slot, command: v.command },
    );
}

proof fn lemma_acceptor_votes(s: System, w: WireMessageView)
    requires
        acceptor_handles(s, w),
    ensures
        acceptor_moved(s, w.to, w.message).inv_votes(),
{
    let t = acceptor_moved(s, w.to, w.message);
    let p = w.to;
    assert forall|v: Vote| #[trigger] t.votes.contains(v) implies t.inv_vote(v) by {
        if s.votes.contains(v) {
            assert(s.inv_vote(v));
            let y = choose|y: ProcessId| s.commands(y, v.ballot, v.slot, v.command);
            assert(t.commands(y, v.ballot, v.slot, v.command));
            lemma_acceptors_grow(s, w, v.acceptor, v.slot);
            lemma_ballot_order_transitive(
                v.ballot,
                s.acceptors[v.acceptor].accepted[v.slot].ballot,
                t.acceptors[v.acceptor].accepted[v.slot].ballot,
            );
        } else {
            lemma_new_vote(s, w, v);
            assert(t.commands(w.message.id(), v.ballot, v.slot, v.command));
        }
    }
    assert forall|a: ProcessId| #[trigger] t.acceptors.contains_key(a) implies t.inv_acceptor(a) by {
        assert(s.inv_acceptor(a));
        lemma_acceptors_grow(s, w, a, 0);
        if a == p {
            let before = s.acceptors[p];
            assert forall|slot: SlotNumber| #[trigger]
                t.acceptors[a].accepted.contains_key(slot) implies t.voted(
                a,
                t.acceptors[a].accepted[slot].ballot,
                slot,
                t.acceptors[a].accepted[slot].command,
            ) by {
                match w.message {
                    MessageView::P2A(_, b, k, c) => {
                        lemma_insert_keeps_maximum(
                            before.accepted,
                            k,
                            PValueView { ballot: b, slot: k, command: c },
                        );
                        if before.ballot.at_most(b) {
                            if slot == k && t.acceptors[a].accepted[slot] == (PValueView {
                                ballot: b,
                                slot: k,
                                command: c,
                            }) {
                                assert(t.votes.contains(
                                    Vote { acceptor: a, ballot: b, slot: k, command: c },
                                ));
                            } else {
                                assert(before.accepted.contains_key(slot));
                            }
                        }
                    },
                    _ => {},
                }
            }
        }
    }
}

proof fn lemma_acceptor_network(s: System, w: WireMessageView)
    requires
        acceptor_handles(s, w),
    ensures
        acceptor_moved(s, w.to, w.message).inv_network(),
{
    let t = acceptor_moved(s, w.to, w.message);
    assert forall|old: WireMessageView| #[trigger] t.network.contains(old) implies t.inv_message(
        old,
    ) by {
        assert(s.inv_message(old));
        match old.message {
            MessageView::P1B(a, b, accepted) => {
                lemma_acceptors_grow(s, w, a, 0);
                lemma_ballot_order_transitive(b, s.acceptors[a].ballot, t.acceptors[a].ballot);
                assert forall|v: Vote| #[trigger]
                    t.votes.contains(v) && v.acceptor == a && v.ballot.below(
                        b,
                    ) implies accepted.contains_key(v.slot) && v.ballot.at_most(
                    accepted[v.slot].ballot,
                ) by {
                    if !s.votes.contains(v) {
                        lemma_new_vote(s, w, v);
                        lemma_ballot_order_transitive(b, s.acceptors[a].ballot, v.ballot);
                        lemma_ballot_order_total(b, v.ballot);
                    }
                }
                assert forall|slot: SlotNumber| #[trigger]
                    accepted.contains_key(slot) implies exists|a: ProcessId|
                    t.voted(a, accepted[slot].ballot, slot, accepted[slot].command) by {
                    let a = choose|a: ProcessId|
                        s.voted(a, accepted[slot].ballot, slot, accepted[slot].command);
                    assert(t.voted(a, accepted[slot].ballot, slot, accepted[slot].command));
                }
            },
            MessageView::Propose(_, _, c) => {
                lemma_proposed_same(s, t, c);
            },
            _ => {},
        }
    }
}

proof fn lemma_acceptor_progress(s: System, w: WireMessageView)
    requires
        acceptor_handles(s, w),
    ensures
        acceptor_moved(s, w.to, w.message).inv_progress(),
{
    let t = acceptor_moved(s, w.to, w.message);
    assert forall|x: ProcessId| #[trigger] t.scouts.contains_key(x) implies t.inv_gathered(x) by {
        assert(s.inv_gathered(x));
        let scout = s.scouts[x];
        assert forall|slot: SlotNumber| #[trigger]
            scout.values.contains_key(slot) implies exists|a: ProcessId|
            t.voted(a, scout.values[slot].ballot, slot, scout.values[slot].command) by {
            let a = choose|a: ProcessId|
                s.voted(a, scout.values[slot].ballot, slot, scout.values[slot].command);
            assert(t.voted(a, scout.values[slot].ballot, slot, scout.values[slot].command));
        }
        assert forall|a: ProcessId| #[trigger]
            t.counted(scout.wait, a) implies scout.ballot.at_most(t.acceptors[a].ballot)
            && t.shows_votes_of(scout.values, a, scout.ballot) by {
            assert(s.counted(scout.wait, a));
            assert(s.inv_roles());
            assert(s.acceptors.contains_key(a));
            lemma_acceptors_grow(s, w, a, 0);
            lemma_ballot_order_transitive(scout.ballot, s.acceptors[a].ballot, t.acceptors[a].ballot);
            assert(s.shows_votes_of(scout.values, a, scout.ballot));
            assert forall|v: Vote| #[trigger]
                t.votes.contains(v) && v.acceptor == a && v.ballot.below(
                    scout.ballot,
                ) implies scout.values.contains_key(v.slot) && v.ballot.at_most(
                scout.values[v.slot].ballot,
            ) by {
                if !s.votes.contains(v) {
                    lemma_new_vote(s, w, v);
                    lemma_ballot_order_transitive(scout.ballot, s.acceptors[a].ballot, v.ballot);
                    lemma_ballot_order_total(scout.ballot, v.ballot);
                }
            }
        }
    }
    assert forall|y: ProcessId| #[trigger] t.commanders.contains_key(y) implies t.inv_counted(y)
        && t.inv_follows(y) by {
        assert(s.inv_counted(y) && s.inv_follows(y));
        assert forall|a: ProcessId| #[trigger] t.counted(t.commanders[y].wait, a) implies t.voted(
            a,
            t.commanders[y].ballot,
            t.commanders[y].slot,
            t.commanders[y].command,
        ) by {
            assert(s.counted(s.commanders[y].wait, a));
        }
    }
    assert forall|l: ProcessId| #[trigger]
        t.leaders.contains_key(l) && t.leaders[l].active implies exists|x: ProcessId|
        t.backs(x, l) by {
        let x = choose|x: ProcessId| s.backs(x, l);
        assert(t.backs(x, l));
    }
}

proof fn lemma_acceptor_safe(s: System, w: WireMessageView)
    requires
        acceptor_handles(s, w),
    ensures
        acceptor_moved(s, w.to, w.message).inv_safe(),
{
    let t = acceptor_moved(s, w.to, w.message);
    assert forall|y: ProcessId| #[trigger] t.commanders.contains_key(y) implies t.safe_at(
        t.commanders[y].ballot,
        t.commanders[y].slot,
        t.commanders[y].command,
    ) by {
        let k = s.commanders[y];
        assert(s.safe_at(k.ballot, k.slot, k.command));
        assert forall|lower: BallotNumber| #[trigger] lower.below(k.ballot) implies t.settled(
            lower,
            k.slot,
            k.command,
        ) by {
            assert(s.settled(lower, k.slot, k.command));
            lemma_settled_stays(s, w, lower, k.slot, k.command);
        }
    }
}

/// What was settled before the step is settled after it.
proof fn lemma_settled_stays(s: System, w: WireMessageView, b: BallotNumber, slot: SlotNumber, c: CommandView)
    requires
        acceptor_handles(s, w),
        s.settled(b, slot, c),
    ensures
        acceptor_moved(s, w.to, w.message).settled(b, slot, c),
{
    let t = acceptor_moved(s, w.to, w.message);
    if exists|a: ProcessId| s.voted(a, b, slot, c) {
        let a = choose|a: ProcessId| s.voted(a, b, slot, c);
        assert(t.voted(a, b, slot, c));
    } else {
        let x = choose|x: ProcessId| s.blocks(x, b, slot);
        let scout = s.scouts[x];
        assert(s.inv_gathered(x));
        assert forall|a: ProcessId| #[trigger] t.counted(scout.wait, a) implies !t.voted_at(
            a,
            b,
            slot,
        ) by {
            assert(s.counted(scout.wait, a));
            if t.voted_at(a, b, slot) {
                let c0 = choose|c0: CommandView| t.voted(a, b, slot, c0);
                let v = Vote { acceptor: a, ballot: b, slot, command: c0 };
                if s.votes.contains(v) {
                    assert(s.voted(a, b, slot, c0));
                    assert(s.voted_at(a, b, slot));
                } else {
                    lemma_new_vote(s, w, v);
                    lemma_ballot_order_transitive(scout.ballot, s.acceptors[a].ballot, b);
                    lemma_ballot_order_total(scout.ballot, b);
                }
            }
        }
        assert(t.blocks(x, b, slot));
    }
}

proof fn lemma_acceptor_rest(s: System, w: WireMessageView)
    requires
        acceptor_handles(s, w),
    ensures
        acceptor_moved(s, w.to, w.message).inv_roles(),
        acceptor_moved(s, w.to, w.message).inv_workers(),
        acceptor_moved(s, w.to, w.message).inv_origin(),
        acceptor_moved(s, w.to, w.message).inv_replicas(),
{
    let t = acceptor_moved(s, w.to, w.message);
    assert(s.inv_roles());
    assert forall|p: ProcessId| #[trigger] t.acceptors.contains_key(p) implies t.acceptors[p].me
        == p by {
        lemma_acceptors_grow(s, w, p, 0);
    }
    assert(t.inv_roles());
    assert forall|x: ProcessId| #[trigger] t.scouts.contains_key(x) implies t.inv_scout(x) by {
        assert(s.inv_scout(x));
    }
    assert forall|y: ProcessId| #[trigger] t.commanders.contains_key(y) implies t.inv_commander(
        y,
    ) by {
        assert(s.inv_commander(y));
    }
    assert forall|y: ProcessId| #[trigger] t.commanders.contains_key(y) implies t.proposed(
        t.commanders[y].command,
    ) by {
        lemma_proposed_same(s, t, s.commanders[y].command);
    }
    assert forall|l: ProcessId, slot: SlotNumber|
        t.leaders.contains_key(l) && #[trigger] t.leaders[l].proposals.contains_key(
            slot,
        ) implies t.proposed(t.leaders[l].proposals[slot].command) by {
        lemma_proposed_same(s, t, s.leaders[l].proposals[slot].command);
    }
    assert forall|r: ProcessId| #[trigger] t.replicas.contains_key(r) implies t.inv_replica(r) by {
        assert(s.inv_replica(r));
        assert forall|slot: SlotNumber| #[trigger]
            t.replicas[r].decisions.contains_key(slot) implies t.decided(
            slot,
            t.replicas[r].decisions[slot],
        ) by {
            crate::safety::frame::lemma_decided_stays(s, t, slot, s.replicas[r].decisions[slot]);
        }
    }
}

/// The answer of the acceptor is in order.
proof fn lemma_acceptor_reply(s: System, w: WireMessageView)
    requires
        acceptor_handles(s, w),
    ensures
        acceptor_moved(s, w.to, w.message).inv_message(s.acceptors[w.to].reply(w.message)),
{
    let t = acceptor_moved(s, w.to, w.message);
    let p = w.to;
    let a = s.acceptors[p];
    assert(s.inv_roles());
    assert(s.inv_acceptor(p));
    assert(s.inv_message(w));
    match w.message {
        MessageView::P1A(src, b) => {
            lemma_ballot_order_total(a.ballot, b);
            lemma_ballot_order_total(b, b);
            assert forall|v: Vote| #[trigger]
                t.votes.contains(v) && v.acceptor == p && v.ballot.below(
                    b,
                ) implies a.accepted.contains_key(v.slot) && v.ballot.at_most(
                a.accepted[v.slot].ballot,
            ) by {
                assert(s.inv_vote(v));
            }
            assert forall|slot: SlotNumber| #[trigger]
                a.accepted.contains_key(slot) implies exists|q: ProcessId|
                t.voted(q, a.accepted[slot].ballot, slot, a.accepted[slot].command) by {
                assert(t.voted(p, a.accepted[slot].ballot, slot, a.accepted[slot].command));
            }
        },
        MessageView::P2A(src, b, slot, c) => {
            lemma_ballot_order_total(a.ballot, b);
            lemma_ballot_order_total(b, b);
            lemma_ballot_order_total(a.ballot, a.ballot);
            if a.ballot.at_most(b) {
                assert(t.votes.contains(Vote { acceptor: p, ballot: b, slot, command: c }));
            }
        },
        _ => {},
    }
}

/// An acceptor's step keeps the invariants.
pub proof fn lemma_acceptor_step(s: System, w: WireMessageView)
    requires
        acceptor_handles(s, w),
    ensures
        acceptor_moved(s, w.to, w.message).with_sent(seq![s.acceptors[w.to].reply(w.message)]).inv(),
{
    let t = acceptor_moved(s, w.to, w.message);
    lemma_acceptor_rest(s, w);
    lemma_acceptor_votes(s, w);
    lemma_acceptor_network(s, w);
    lemma_acceptor_progress(s, w);
    lemma_acceptor_safe(s, w);
    lemma_acceptor_reply(s, w);
    let reply = s.acceptors[w.to].reply(w.message);
    assert forall|m: WireMessageView| #[trigger] seq![reply].contains(m) implies t.inv_message(
        m,
    ) by {
        assert(m == reply);
    }
    lemma_sending(t, seq![reply]);
}

} // verus!
