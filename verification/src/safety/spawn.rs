//! Starting workers keeps the invariants.

use crate::env::ProcessId;
use crate::leader::{CommanderView, Phase, ScoutView, SpawnView};
use crate::message::{broadcast_views, MessageView, WireMessageView};
use crate::pval::{lemma_ballot_order_total, BallotNumber, CommandView, SlotNumber};
use crate::safety::agreement::lemma_acceptor_count;
use crate::safety::frame::{lemma_decided_stays, lemma_proposed_same};
use crate::safety::model::{System, Vote};
use vstd::prelude::*;

verus! {

/// A scout that has just started waits for every acceptor, has gathered
/// nothing, and has sent its ballot to the acceptors and nothing else.
pub proof fn lemma_new_scout(s: System, id: ProcessId, leader: ProcessId, b: BallotNumber)
    requires
        s.config.well_formed(),
    ensures
        s.new_scout(id, leader, b) == (ScoutView {
            me: id,
            leader,
            ballot: b,
            phase: Phase::Waiting,
            total: s.config.acceptors.len(),
            wait: s.config.acceptors.to_set(),
            values: Map::empty(),
        }),
        s.scout_opening(id, leader, b) == broadcast_views(
            MessageView::P1A(id, b),
            s.config.acceptors,
        ),
{
    lemma_acceptor_count(s.config);
    let first = ScoutView::initial(id, leader, b);
    assert(first.opening(s.config.acceptors) =~= broadcast_views(
        MessageView::P1A(id, b),
        s.config.acceptors,
    ));
}

/// A commander that has just started waits for every acceptor, and has sent
/// its p-value to the acceptors and nothing else.
pub proof fn lemma_new_commander(
    s: System,
    id: ProcessId,
    leader: ProcessId,
    b: BallotNumber,
    slot: SlotNumber,
    c: CommandView,
)
    requires
        s.config.well_formed(),
    ensures
        s.new_commander(id, leader, b, slot, c) == (CommanderView {
            me: id,
            leader,
            ballot: b,
            slot,
            command: c,
            phase: Phase::Waiting,
            total: s.config.acceptors.len(),
            wait: s.config.acceptors.to_set(),
            replicas: s.config.replicas,
        }),
        s.commander_opening(id, leader, b, slot, c) == broadcast_views(
            MessageView::P2A(id, b, slot, c),
            s.config.acceptors,
        ),
{
    lemma_acceptor_count(s.config);
    let first = CommanderView::initial(id, leader, b, slot, c);
    assert(first.opening(s.config.acceptors, s.config.replicas) =~= broadcast_views(
        MessageView::P2A(id, b, slot, c),
        s.config.acceptors,
    ));
}

/// A request for a worker that the leader's state bears out: a scout for
/// the leader's ballot, for which there is no scout yet; or a commander for
/// the ballot of the active leader and a command it proposes, which is safe
/// at that ballot.
pub open spec fn spawn_fits(s: System, leader: ProcessId, spawn: SpawnView) -> bool {
    let l = s.leaders[leader];
    match spawn {
        SpawnView::Scout(b) => {
            &&& b == l.ballot
            &&& forall|x: ProcessId| #[trigger] s.scouts.contains_key(x) ==> s.scouts[x].ballot != b
        },
        SpawnView::Commander(b, slot, c) => {
            &&& b == l.ballot
            &&& l.active
            &&& l.proposals.contains_key(slot)
            &&& l.proposals[slot].command == c
            &&& s.safe_at(b, slot, c)
        },
    }
}

/// What starting the workers is about.
pub open spec fn workers_fit(s: System, leader: ProcessId, spawns: Seq<SpawnView>, ids: Seq<ProcessId>) -> bool {
    &&& s.inv()
    &&& s.config.leaders.contains(leader)
    &&& spawns.len() > 0 ==> s.booted.contains(leader)
    &&& s.fresh(ids)
    &&& ids.len() == spawns.len()
    &&& forall|i: int| 0 <= i < spawns.len() ==> spawn_fits(s, leader, #[trigger] spawns[i])
    &&& forall|i: int, j: int|
        0 <= i < spawns.len() && 0 <= j < spawns.len() && i != j ==> !(#[trigger] spawns[i] is Scout
            && #[trigger] spawns[j] is Scout)
}

/// The scout `p` was started in the step, for the `i`-th request.
pub open spec fn scout_started(
    s: System,
    leader: ProcessId,
    spawns: Seq<SpawnView>,
    ids: Seq<ProcessId>,
    p: ProcessId,
    i: int,
) -> bool {
    &&& 0 <= i < spawns.len()
    &&& ids[i] == p
    &&& spawns[i] is Scout
    &&& spawns[i]->Scout_0 == s.leaders[leader].ballot
    &&& s.with_workers(leader, spawns, ids).scouts[p] == (ScoutView {
        me: p,
        leader,
        ballot: s.leaders[leader].ballot,
        phase: Phase::Waiting,
        total: s.config.acceptors.len(),
        wait: s.config.acceptors.to_set(),
        values: Map::empty(),
    })
}

/// The commander `p` was started in the step, for the `i`-th request.
pub open spec fn commander_started(
    s: System,
    leader: ProcessId,
    spawns: Seq<SpawnView>,
    ids: Seq<ProcessId>,
    p: ProcessId,
    i: int,
) -> bool {
    &&& 0 <= i < spawns.len()
    &&& ids[i] == p
    &&& spawns[i] is Commander
    &&& spawns[i]->Commander_0 == s.leaders[leader].ballot
    &&& s.with_workers(leader, spawns, ids).commanders[p] == (CommanderView {
        me: p,
        leader,
        ballot: s.leaders[leader].ballot,
        slot: spawns[i]->Commander_1,
        command: spawns[i]->Commander_2,
        phase: Phase::Waiting,
        total: s.config.acceptors.len(),
        wait: s.config.acceptors.to_set(),
        replicas: s.config.replicas,
    })
}

/// The scouts after the step: those there were, as they were, and those
/// the step started.
pub proof fn lemma_scouts_after(
    s: System,
    leader: ProcessId,
    spawns: Seq<SpawnView>,
    ids: Seq<ProcessId>,
    p: ProcessId,
)
    requires
        workers_fit(s, leader, spawns, ids),
        s.with_workers(leader, spawns, ids).scouts.contains_key(p),
    ensures
        s.scouts.contains_key(p) ==> s.with_workers(leader, spawns, ids).scouts[p] == s.scouts[p],
        !s.scouts.contains_key(p) ==> exists|i: int|
            scout_started(s, leader, spawns, ids, p, i),
        !s.scouts.contains_key(p) ==> !s.knows(p),
{
    let t = s.with_workers(leader, spawns, ids);
    if !s.scouts.contains_key(p) {
        let i = choose|i: int| 0 <= i < spawns.len() && #[trigger] ids[i] == p && spawns[i] is Scout;
        let j = choose|j: int| 0 <= j < spawns.len() && #[trigger] ids[j] == p && spawns[j] is Scout;
        assert(i == j);
        assert(spawn_fits(s, leader, spawns[i]));
        assert(s.inv_roles());
        lemma_new_scout(s, p, leader, spawns[i]->Scout_0);
        assert(scout_started(s, leader, spawns, ids, p, i));
    }
}

/// The commanders after the step: those there were, as they were, and
/// those the step started.
pub proof fn lemma_commanders_after(
    s: System,
    leader: ProcessId,
    spawns: Seq<SpawnView>,
    ids: Seq<ProcessId>,
    p: ProcessId,
)
    requires
        workers_fit(s, leader, spawns, ids),
        s.with_workers(leader, spawns, ids).commanders.contains_key(p),
    ensures
        s.commanders.contains_key(p) ==> s.with_workers(leader, spawns, ids).commanders[p]
            == s.commanders[p],
        !s.commanders.contains_key(p) ==> exists|i: int|
            commander_started(s, leader, spawns, ids, p, i),
        !s.commanders.contains_key(p) ==> !s.knows(p),
{
    let t = s.with_workers(leader, spawns, ids);
    if !s.commanders.contains_key(p) {
        let i = choose|i: int|
            0 <= i < spawns.len() && #[trigger] ids[i] == p && spawns[i] is Commander;
        assert(spawn_fits(s, leader, spawns[i]));
        assert(s.inv_roles());
        lemma_new_commander(
            s,
            p,
            leader,
            spawns[i]->Commander_0,
            spawns[i]->Commander_1,
            spawns[i]->Commander_2,
        );
        assert(commander_started(s, leader, spawns, ids, p, i));
    }
}

/// What was settled before the workers started is settled after.
proof fn lemma_settled_after(
    s: System,
    leader: ProcessId,
    spawns: Seq<SpawnView>,
    ids: Seq<ProcessId>,
    b: BallotNumber,
    slot: SlotNumber,
    c: CommandView,
)
    requires
        workers_fit(s, leader, spawns, ids),
        s.settled(b, slot, c),
    ensures
        s.with_workers(leader, spawns, ids).settled(b, slot, c),
{
    let t = s.with_workers(leader, spawns, ids);
    if exists|a: ProcessId| s.voted(a, b, slot, c) {
        let a = choose|a: ProcessId| s.voted(a, b, slot, c);
        assert(t.voted(a, b, slot, c));
    } else {
        let x = choose|x: ProcessId| s.blocks(x, b, slot);
        assert(t.scouts.contains_key(x));
        lemma_scouts_after(s, leader, spawns, ids, x);
        assert forall|a: ProcessId| #[trigger] t.counted(t.scouts[x].wait, a) implies !t.voted_at(
            a,
            b,
            slot,
        ) by {
            assert(s.counted(s.scouts[x].wait, a));
            if t.voted_at(a, b, slot) {
                let c0 = choose|c0: CommandView| t.voted(a, b, slot, c0);
                assert(s.voted(a, b, slot, c0));
            }
        }
        assert(t.blocks(x, b, slot));
    }
}

proof fn lemma_started_roles(s: System, leader: ProcessId, spawns: Seq<SpawnView>, ids: Seq<ProcessId>)
    requires
        workers_fit(s, leader, spawns, ids),
    ensures
        s.with_workers(leader, spawns, ids).inv_roles(),
        s.with_workers(leader, spawns, ids).inv_workers(),
{
    let t = s.with_workers(leader, spawns, ids);
    assert(s.inv_roles());
    assert forall|p: ProcessId| #[trigger] t.scouts.contains_key(p) implies !t.config.lists(p)
        && !t.commanders.contains_key(p) by {
        lemma_scouts_after(s, leader, spawns, ids, p);
        if t.commanders.contains_key(p) {
            lemma_commanders_after(s, leader, spawns, ids, p);
            if !s.commanders.contains_key(p) {
                let j = choose|j: int| commander_started(s, leader, spawns, ids, p, j);
                if !s.scouts.contains_key(p) {
                    let i = choose|i: int| scout_started(s, leader, spawns, ids, p, i);
                    assert(i == j);
                }
            }
        }
    }
    assert forall|p: ProcessId| #[trigger] t.commanders.contains_key(p) implies !t.config.lists(
        p,
    ) by {
        lemma_commanders_after(s, leader, spawns, ids, p);
    }
    assert(t.inv_roles());
    assert forall|x: ProcessId| #[trigger] t.scouts.contains_key(x) implies t.inv_scout(x) by {
        lemma_scouts_after(s, leader, spawns, ids, x);
        if s.scouts.contains_key(x) {
            assert(s.inv_scout(x));
        } else {
            let i = choose|i: int| scout_started(s, leader, spawns, ids, x, i);
            assert(s.leaders.contains_key(leader));
            lemma_ballot_order_total(s.leaders[leader].ballot, s.leaders[leader].ballot);
        }
    }
    assert forall|y: ProcessId| #[trigger] t.commanders.contains_key(y) implies t.inv_commander(
        y,
    ) by {
        lemma_commanders_after(s, leader, spawns, ids, y);
        if s.commanders.contains_key(y) {
            assert(s.inv_commander(y));
        } else {
            let i = choose|i: int| commander_started(s, leader, spawns, ids, y, i);
            assert(s.leaders.contains_key(leader));
            lemma_ballot_order_total(s.leaders[leader].ballot, s.leaders[leader].ballot);
        }
    }
    assert forall|x: ProcessId, z: ProcessId|
        #![trigger t.scouts[x], t.scouts[z]]
        t.scouts.contains_key(x) && t.scouts.contains_key(z) && t.scouts[x].ballot
            == t.scouts[z].ballot implies x == z by {
        lemma_scouts_after(s, leader, spawns, ids, x);
        lemma_scouts_after(s, leader, spawns, ids, z);
        if s.scouts.contains_key(x) && s.scouts.contains_key(z) {
            assert(s.scouts[x].ballot == s.scouts[z].ballot);
        } else if !s.scouts.contains_key(x) && !s.scouts.contains_key(z) {
            let i = choose|i: int| scout_started(s, leader, spawns, ids, x, i);
            let j = choose|j: int| scout_started(s, leader, spawns, ids, z, j);
            assert(i == j);
        } else if !s.scouts.contains_key(x) {
            let i = choose|i: int| scout_started(s, leader, spawns, ids, x, i);
            assert(spawn_fits(s, leader, spawns[i]));
        } else {
            let j = choose|j: int| scout_started(s, leader, spawns, ids, z, j);
            assert(spawn_fits(s, leader, spawns[j]));
        }
    }
}

proof fn lemma_started_votes(s: System, leader: ProcessId, spawns: Seq<SpawnView>, ids: Seq<ProcessId>)
    requires
        workers_fit(s, leader, spawns, ids),
    ensures
        s.with_workers(leader, spawns, ids).inv_votes(),
        s.with_workers(leader, spawns, ids).inv_origin(),
        s.with_workers(leader, spawns, ids).inv_replicas(),
{
    let t = s.with_workers(leader, spawns, ids);
    assert forall|v: Vote| #[trigger] t.votes.contains(v) implies t.inv_vote(v) by {
        assert(s.inv_vote(v));
        let y = choose|y: ProcessId| s.commands(y, v.ballot, v.slot, v.command);
        assert(t.commanders.contains_key(y));
        lemma_commanders_after(s, leader, spawns, ids, y);
        assert(t.commands(y, v.ballot, v.slot, v.command));
    }
    assert forall|a: ProcessId| #[trigger] t.acceptors.contains_key(a) implies t.inv_acceptor(a) by {
        assert(s.inv_acceptor(a));
    }
    assert forall|y: ProcessId| #[trigger] t.commanders.contains_key(y) implies t.proposed(
        t.commanders[y].command,
    ) by {
        lemma_commanders_after(s, leader, spawns, ids, y);
        if s.commanders.contains_key(y) {
            lemma_proposed_same(s, t, s.commanders[y].command);
        } else {
            let i = choose|i: int| commander_started(s, leader, spawns, ids, y, i);
            assert(spawn_fits(s, leader, spawns[i]));
            assert(s.inv_roles());
            assert(s.leaders.contains_key(leader));
            lemma_proposed_same(s, t, s.leaders[leader].proposals[spawns[i]->Commander_1].command);
        }
    }
    assert forall|l: ProcessId, slot: SlotNumber|
        t.leaders.contains_key(l) && #[trigger] t.leaders[l].proposals.contains_key(
            slot,
        ) implies t.proposed(t.leaders[l].proposals[slot].command) by {
        lemma_proposed_same(s, t, s.leaders[l].proposals[slot].command);
    }
    assert forall|r: ProcessId| #[trigger] t.replicas.contains_key(r) implies t.inv_replica(r) by {
        assert(s.inv_replica(r));
        assert forall|slot: SlotNumber| #[trigger]
            t.replicas[r].decisions.contains_key(slot) implies t.decided(
            slot,
            t.replicas[r].decisions[slot],
        ) by {
            lemma_decided_stays(s, t, slot, s.replicas[r].decisions[slot]);
        }
    }
}

proof fn lemma_started_network(s: System, leader: ProcessId, spawns: Seq<SpawnView>, ids: Seq<ProcessId>)
    requires
        workers_fit(s, leader, spawns, ids),
    ensures
        s.with_workers(leader, spawns, ids).inv_network(),
{
    let t = s.with_workers(leader, spawns, ids);
    assert(s.inv_roles());
    assert forall|w: WireMessageView| #[trigger] t.network.contains(w) implies t.inv_message(w) by {
        if s.network.contains(w) {
            assert(s.inv_message(w));
            match w.message {
                MessageView::P1B(a, b, accepted) => {
                    assert forall|v: Vote| #[trigger]
                        t.votes.contains(v) && v.acceptor == a && v.ballot.below(
                            b,
                        ) implies accepted.contains_key(v.slot) && v.ballot.at_most(
                        accepted[v.slot].ballot,
                    ) by {}
                    assert forall|slot: SlotNumber| #[trigger]
                        accepted.contains_key(slot) implies exists|a: ProcessId|
                        t.voted(a, accepted[slot].ballot, slot, accepted[slot].command) by {
                        let a = choose|a: ProcessId|
                            s.voted(a, accepted[slot].ballot, slot, accepted[slot].command);
                        assert(t.voted(a, accepted[slot].ballot, slot, accepted[slot].command));
                    }
                },
                MessageView::P2A(src, b, slot, c) => {
                    assert(t.commanders.contains_key(src));
                    lemma_commanders_after(s, leader, spawns, ids, src);
                },
                MessageView::P2B(a, b, _) => {
                    assert(t.commanders.contains_key(w.to));
                    lemma_commanders_after(s, leader, spawns, ids, w.to);
                },
                MessageView::Adopt(src, b, values) => {
                    assert(t.scouts.contains_key(src));
                    lemma_scouts_after(s, leader, spawns, ids, src);
                },
                MessageView::Decision(src, slot, c) => {
                    assert(t.commanders.contains_key(src));
                    lemma_commanders_after(s, leader, spawns, ids, src);
                },
                MessageView::Propose(_, _, c) => {
                    lemma_proposed_same(s, t, c);
                },
                _ => {},
            }
        } else {
            let i = choose|i: int|
                0 <= i < spawns.len() && #[trigger] s.worker_opening(leader, spawns, ids, i).contains(
                    w,
                );
            let out = s.worker_opening(leader, spawns, ids, i);
            let k = choose|k: int| 0 <= k < out.len() && out[k] == w;
            match spawns[i] {
                SpawnView::Scout(b) => {
                    lemma_new_scout(s, ids[i], leader, b);
                },
                SpawnView::Commander(b, slot, c) => {
                    lemma_new_commander(s, ids[i], leader, b, slot, c);
                    let p = ids[i];
                    assert(t.commanders.contains_key(p));
                    lemma_commanders_after(s, leader, spawns, ids, p);
                    let j = choose|j: int| commander_started(s, leader, spawns, ids, p, j);
                    assert(i == j);
                    assert(spawn_fits(s, leader, spawns[i]));
                },
            }
        }
    }
}

proof fn lemma_started_progress(s: System, leader: ProcessId, spawns: Seq<SpawnView>, ids: Seq<ProcessId>)
    requires
        workers_fit(s, leader, spawns, ids),
    ensures
        s.with_workers(leader, spawns, ids).inv_progress(),
{
    let t = s.with_workers(leader, spawns, ids);
    assert(s.inv_roles());
    assert forall|x: ProcessId| #[trigger] t.scouts.contains_key(x) implies t.inv_gathered(x) by {
        lemma_scouts_after(s, leader, spawns, ids, x);
        if s.scouts.contains_key(x) {
            assert(s.inv_gathered(x));
            let scout = s.scouts[x];
            assert forall|slot: SlotNumber| #[trigger]
                scout.values.contains_key(slot) implies exists|a: ProcessId|
                t.voted(a, scout.values[slot].ballot, slot, scout.values[slot].command) by {
                let a = choose|a: ProcessId|
                    s.voted(a, scout.values[slot].ballot, slot, scout.values[slot].command);
                assert(t.voted(a, scout.values[slot].ballot, slot, scout.values[slot].command));
            }
            assert forall|a: ProcessId| #[trigger]
                t.counted(scout.wait, a) implies scout.ballot.at_most(t.acceptors[a].ballot)
                && t.shows_votes_of(scout.values, a, scout.ballot) by {
                assert(s.counted(scout.wait, a));
                assert(s.shows_votes_of(scout.values, a, scout.ballot));
            }
        }
    }
    assert forall|y: ProcessId| #[trigger] t.commanders.contains_key(y) implies t.inv_counted(y)
        && t.inv_follows(y) by {
        lemma_commanders_after(s, leader, spawns, ids, y);
        if s.commanders.contains_key(y) {
            assert(s.inv_counted(y) && s.inv_follows(y));
            assert forall|a: ProcessId| #[trigger]
                t.counted(t.commanders[y].wait, a) implies t.voted(
                a,
                t.commanders[y].ballot,
                t.commanders[y].slot,
                t.commanders[y].command,
            ) by {
                assert(s.counted(s.commanders[y].wait, a));
            }
        } else {
            let i = choose|i: int| commander_started(s, leader, spawns, ids, y, i);
            assert(spawn_fits(s, leader, spawns[i]));
        }
    }
    assert forall|l: ProcessId| #[trigger]
        t.leaders.contains_key(l) && t.leaders[l].active implies exists|x: ProcessId|
        t.backs(x, l) by {
        let x = choose|x: ProcessId| s.backs(x, l);
        assert(t.scouts.contains_key(x));
        lemma_scouts_after(s, leader, spawns, ids, x);
        assert(t.backs(x, l));
    }
    assert forall|y: ProcessId, z: ProcessId|
        #![trigger t.commanders[y], t.commanders[z]]
        t.commanders.contains_key(y) && t.commanders.contains_key(z) && t.commanders[y].ballot
            == t.commanders[z].ballot && t.commanders[y].slot
            == t.commanders[z].slot implies t.commanders[y].command == t.commanders[z].command by {
        lemma_commanders_after(s, leader, spawns, ids, y);
        lemma_commanders_after(s, leader, spawns, ids, z);
        assert(s.leaders.contains_key(leader));
        if s.commanders.contains_key(y) {
            assert(s.inv_commander(y));
            assert(s.inv_follows(y));
        } else {
            let i = choose|i: int| commander_started(s, leader, spawns, ids, y, i);
            assert(spawn_fits(s, leader, spawns[i]));
        }
        if s.commanders.contains_key(z) {
            assert(s.inv_commander(z));
            assert(s.inv_follows(z));
        } else {
            let j = choose|j: int| commander_started(s, leader, spawns, ids, z, j);
            assert(spawn_fits(s, leader, spawns[j]));
        }
        if s.commanders.contains_key(y) && s.commanders.contains_key(z) {
            assert(s.commanders[y].command == s.commanders[z].command);
        }
    }
}

proof fn lemma_started_safe(s: System, leader: ProcessId, spawns: Seq<SpawnView>, ids: Seq<ProcessId>)
    requires
        workers_fit(s, leader, spawns, ids),
    ensures
        s.with_workers(leader, spawns, ids).inv_safe(),
{
    let t = s.with_workers(leader, spawns, ids);
    assert forall|y: ProcessId| #[trigger] t.commanders.contains_key(y) implies t.safe_at(
        t.commanders[y].ballot,
        t.commanders[y].slot,
        t.commanders[y].command,
    ) by {
        lemma_commanders_after(s, leader, spawns, ids, y);
        let k = t.commanders[y];
        if s.commanders.contains_key(y) {
            assert(s.safe_at(k.ballot, k.slot, k.command));
        } else {
            let i = choose|i: int| commander_started(s, leader, spawns, ids, y, i);
            assert(spawn_fits(s, leader, spawns[i]));
            assert(s.safe_at(k.ballot, k.slot, k.command));
        }
        assert forall|lower: BallotNumber| #[trigger] lower.below(k.ballot) implies t.settled(
            lower,
            k.slot,
            k.command,
        ) by {
            assert(s.settled(lower, k.slot, k.command));
            lemma_settled_after(s, leader, spawns, ids, lower, k.slot, k.command);
        }
    }
}

/// Starting workers that the leader's state bears out keeps the invariants.
pub proof fn lemma_workers_started(s: System, leader: ProcessId, spawns: Seq<SpawnView>, ids: Seq<ProcessId>)
    requires
        workers_fit(s, leader, spawns, ids),
    ensures
        s.with_workers(leader, spawns, ids).inv(),
{
    lemma_started_roles(s, leader, spawns, ids);
    lemma_started_votes(s, leader, spawns, ids);
    lemma_started_network(s, leader, spawns, ids);
    lemma_started_progress(s, leader, spawns, ids);
    lemma_started_safe(s, leader, spawns, ids);
}

} // verus!
