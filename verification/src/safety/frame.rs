//! The first state, and the steps that touch the network only.

use crate::env::ProcessId;
use crate::message::{MessageView, WireMessageView};
use crate::pval::{BallotNumber, CommandView, SlotNumber};
use crate::safety::model::{Config, System, Vote};
use vstd::prelude::*;

verus! {

/// The first state keeps the invariants.
pub proof fn lemma_initial(config: Config)
    requires
        config.well_formed(),
    ensures
        System::initial(config).inv(),
{
    let s = System::initial(config);
    assert(s.inv_roles());
    assert(s.inv_workers());
    assert forall|a: ProcessId| #[trigger] s.acceptors.contains_key(a) implies s.inv_acceptor(a) by {}
    assert(s.inv_votes());
    assert(s.inv_network());
    assert(s.inv_progress());
    assert(s.inv_safe());
    assert(s.inv_origin());
    assert forall|r: ProcessId| #[trigger] s.replicas.contains_key(r) implies s.inv_replica(r) by {}
}

/// Sending messages that are in order keeps the invariants.
pub proof fn lemma_sending(s: System, out: Seq<WireMessageView>)
    requires
        s.inv(),
        forall|w: WireMessageView| #[trigger] out.contains(w) ==> s.inv_message(w),
    ensures
        s.with_sent(out).inv(),
{
    let t = s.with_sent(out);
    assert(t.inv_roles());
    assert forall|x: ProcessId| #[trigger] t.scouts.contains_key(x) implies t.inv_scout(x) by {
        assert(s.inv_scout(x));
    }
    assert forall|y: ProcessId| #[trigger] t.commanders.contains_key(y) implies t.inv_commander(
        y,
    ) by {
        assert(s.inv_commander(y));
    }
    assert(t.inv_workers());
    assert forall|v: Vote| #[trigger] t.votes.contains(v) implies t.inv_vote(v) by {
        assert(s.inv_vote(v));
        let y = choose|y: ProcessId| s.commands(y, v.ballot, v.slot, v.command);
        assert(t.commands(y, v.ballot, v.slot, v.command));
    }
    assert forall|a: ProcessId| #[trigger] t.acceptors.contains_key(a) implies t.inv_acceptor(a) by {
        assert(s.inv_acceptor(a));
    }
    assert(t.inv_votes());
    lemma_same_but_network(s, t);
    assert forall|w: WireMessageView| #[trigger] t.network.contains(w) implies t.inv_message(w) by {
        if s.network.contains(w) {
            assert(s.inv_message(w));
        } else {
            assert(out.contains(w));
            assert(s.inv_message(w));
        }
        lemma_message_same_but_network(s, t, w);
    }
    assert forall|r: ProcessId| #[trigger] t.replicas.contains_key(r) implies t.inv_replica(r) by {
        assert(s.inv_replica(r));
        assert forall|slot: SlotNumber| #[trigger]
            t.replicas[r].decisions.contains_key(slot) implies t.decided(
            slot,
            t.replicas[r].decisions[slot],
        ) by {
            lemma_decided_stays(s, t, slot, s.replicas[r].decisions[slot]);
        }
    }
}

/// A decision that was announced stays announced when the network grows.
pub proof fn lemma_decided_stays(s: System, t: System, slot: SlotNumber, c: CommandView)
    requires
        s.decided(slot, c),
        forall|w: WireMessageView| s.network.contains(w) ==> t.network.contains(w),
    ensures
        t.decided(slot, c),
{
    let w = choose|w: WireMessageView| #[trigger] s.network.contains(w) && w.message.decides(slot, c);
    assert(t.network.contains(w) && w.message.decides(slot, c));
}

/// Two states that differ in the network only.
pub open spec fn same_but_network(s: System, t: System) -> bool {
    &&& t.config == s.config
    &&& t.acceptors == s.acceptors
    &&& t.leaders == s.leaders
    &&& t.scouts == s.scouts
    &&& t.commanders == s.commanders
    &&& t.replicas == s.replicas
    &&& t.booted == s.booted
    &&& t.votes == s.votes
    &&& t.log == s.log
}

/// What is said of a message does not depend on the network.
pub proof fn lemma_message_same_but_network(s: System, t: System, w: WireMessageView)
    requires
        same_but_network(s, t),
        s.inv_message(w),
    ensures
        t.inv_message(w),
{
    match w.message {
        MessageView::P1B(a, b, accepted) => {
            assert forall|v: Vote| #[trigger]
                t.votes.contains(v) && v.acceptor == a && v.ballot.below(
                    b,
                ) implies accepted.contains_key(v.slot) && v.ballot.at_most(
                accepted[v.slot].ballot,
            ) by {}
            assert forall|slot: SlotNumber| #[trigger]
                accepted.contains_key(slot) implies exists|a: ProcessId|
                t.voted(a, accepted[slot].ballot, slot, accepted[slot].command) by {
                let a = choose|a: ProcessId|
                    s.voted(a, accepted[slot].ballot, slot, accepted[slot].command);
                assert(t.voted(a, accepted[slot].ballot, slot, accepted[slot].command));
            }
        },
        MessageView::Propose(_, _, c) => {
            let (r, slot) = choose|r: ProcessId, slot: SlotNumber|
                s.replicas.contains_key(r) && #[trigger] s.replicas[r].proposals.contains_key(slot)
                    && s.replicas[r].proposals[slot] == c;
            assert(t.replicas.contains_key(r) && t.replicas[r].proposals.contains_key(slot));
        },
        _ => {},
    }
}

/// The invariants that do not speak of the network hold of two states that
/// differ in the network only, or of neither.
pub proof fn lemma_same_but_network(s: System, t: System)
    requires
        same_but_network(s, t),
        s.inv(),
    ensures
        t.inv_progress(),
        t.inv_safe(),
        t.inv_origin(),
{
    assert forall|x: ProcessId| #[trigger] t.scouts.contains_key(x) implies t.inv_gathered(x) by {
        assert(s.inv_gathered(x));
        let scout = s.scouts[x];
        assert forall|slot: SlotNumber| #[trigger]
            scout.values.contains_key(slot) implies exists|a: ProcessId|
            t.voted(a, scout.values[slot].ballot, slot, scout.values[slot].command) by {
            let a = choose|a: ProcessId|
                s.voted(a, scout.values[slot].ballot, slot, scout.values[slot].command);
            assert(t.voted(a, scout.values[slot].ballot, slot, scout.values[slot].command));
        }
        assert forall|a: ProcessId| #[trigger]
            t.counted(scout.wait, a) implies scout.ballot.at_most(t.acceptors[a].ballot)
            && t.shows_votes_of(scout.values, a, scout.ballot) by {
            assert(s.counted(scout.wait, a));
            assert(s.shows_votes_of(scout.values, a, scout.ballot));
        }
    }
    assert forall|y: ProcessId| #[trigger] t.commanders.contains_key(y) implies t.inv_counted(y)
        && t.inv_follows(y) by {
        assert(s.inv_counted(y) && s.inv_follows(y));
        assert forall|a: ProcessId| #[trigger] t.counted(t.commanders[y].wait, a) implies t.voted(
            a,
            t.commanders[y].ballot,
            t.commanders[y].slot,
            t.commanders[y].command,
        ) by {
            assert(s.counted(s.commanders[y].wait, a));
        }
    }
    assert forall|l: ProcessId| #[trigger]
        t.leaders.contains_key(l) && t.leaders[l].active implies exists|x: ProcessId|
        t.backs(x, l) by {
        let x = choose|x: ProcessId| s.backs(x, l);
        assert(t.backs(x, l));
    }
    assert(t.inv_progress());
    assert forall|y: ProcessId| #[trigger] t.commanders.contains_key(y) implies t.safe_at(
        t.commanders[y].ballot,
        t.commanders[y].slot,
        t.commanders[y].command,
    ) by {
        let k = s.commanders[y];
        assert(s.safe_at(k.ballot, k.slot, k.command));
        assert forall|lower: BallotNumber| #[trigger] lower.below(k.ballot) implies t.settled(
            lower,
            k.slot,
            k.command,
        ) by {
            assert(s.settled(lower, k.slot, k.command));
            lemma_settled_same_but_network(s, t, lower, k.slot, k.command);
        }
    }
    assert forall|y: ProcessId| #[trigger] t.commanders.contains_key(y) implies t.proposed(
        t.commanders[y].command,
    ) by {
        lemma_proposed_same(s, t, s.commanders[y].command);
    }
    assert forall|l: ProcessId, slot: SlotNumber|
        t.leaders.contains_key(l) && #[trigger] t.leaders[l].proposals.contains_key(
            slot,
        ) implies t.proposed(t.leaders[l].proposals[slot].command) by {
        lemma_proposed_same(s, t, s.leaders[l].proposals[slot].command);
    }
}

/// What was proposed stays proposed where the replicas stay as they are.
pub proof fn lemma_proposed_same(s: System, t: System, c: CommandView)
    requires
        s.proposed(c),
        t.replicas == s.replicas,
    ensures
        t.proposed(c),
{
    let (r, slot) = choose|r: ProcessId, slot: SlotNumber|
        s.replicas.contains_key(r) && #[trigger] s.replicas[r].proposals.contains_key(slot)
            && s.replicas[r].proposals[slot] == c;
    assert(t.replicas.contains_key(r) && t.replicas[r].proposals.contains_key(slot));
}

/// What is settled does not depend on the network.
pub proof fn lemma_settled_same_but_network(
    s: System,
    t: System,
    b: BallotNumber,
    slot: SlotNumber,
    c: CommandView,
)
    requires
        same_but_network(s, t),
        s.settled(b, slot, c),
    ensures
        t.settled(b, slot, c),
{
    if exists|a: ProcessId| s.voted(a, b, slot, c) {
        let a = choose|a: ProcessId| s.voted(a, b, slot, c);
        assert(t.voted(a, b, slot, c));
    } else {
        let x = choose|x: ProcessId| s.blocks(x, b, slot);
        assert forall|a: ProcessId| #[trigger] t.counted(t.scouts[x].wait, a) implies !t.voted_at(
            a,
            b,
            slot,
        ) by {
            assert(s.counted(s.scouts[x].wait, a));
            if t.voted_at(a, b, slot) {
                let c0 = choose|c0: CommandView| t.voted(a, b, slot, c0);
                assert(s.voted(a, b, slot, c0));
            }
        }
        assert(t.blocks(x, b, slot));
    }
}

/// A client's request keeps the invariants.
pub proof fn lemma_request(s: System, replica: ProcessId, client: ProcessId, command: CommandView)
    requires
        s.inv(),
    ensures
        s.with_sent(
            seq![WireMessageView { to: replica, message: MessageView::Request(client, command) }],
        ).inv(),
{
    let w = WireMessageView { to: replica, message: MessageView::Request(client, command) };
    assert forall|m: WireMessageView| #[trigger] seq![w].contains(m) implies s.inv_message(m) by {
        assert(m == w);
    }
    lemma_sending(s, seq![w]);
}

} // verus!
