//! Every state a cluster can reach keeps the invariants, and so is safe.

use crate::env::ProcessId;
use crate::message::ProtocolError;
use crate::pval::{CommandView, SlotNumber};
use crate::safety::acceptor_step::lemma_acceptor_step;
use crate::leader::majority_answered;
use crate::safety::agreement::{lemma_commanders_agree, lemma_decisions_were_proposed,
    lemma_one_decision_per_slot, lemma_replicas_agree};
use crate::safety::frame::{lemma_initial, lemma_request};
use crate::safety::leader_step::{lemma_boot, lemma_leader_step};
use crate::safety::model::{Config, Step, System};
use crate::safety::replica_step::lemma_replica_moves;
use crate::safety::worker_step::{lemma_commander_step, lemma_scout_step};
use vstd::prelude::*;

verus! {

/// A step that can happen keeps the invariants.
pub proof fn lemma_step(s: System, step: Step)
    requires
        s.inv(),
        s.enabled(step),
    ensures
        s.after(step).inv(),
{
    match step {
        Step::Request { replica, client, command } => {
            lemma_request(s, replica, client, command);
        },
        Step::Boot { leader, id } => {
            lemma_boot(s, leader, id);
        },
        Step::Deliver { w, ids } => {
            let p = w.to;
            let m = w.message;
            if s.acceptors.contains_key(p) {
                if crate::acceptor::AcceptorView::handles(m) {
                    lemma_acceptor_step(s, w);
                }
            } else if s.leaders.contains_key(p) {
                if s.leaders[p].refusal(m) is None {
                    lemma_leader_step(s, w, ids);
                }
            } else if s.scouts.contains_key(p) {
                if s.scouts[p].handles(m) {
                    lemma_scout_step(s, w);
                }
            } else if s.commanders.contains_key(p) {
                if s.commanders[p].handles(m) {
                    lemma_commander_step(s, w);
                }
            } else if s.replicas.contains_key(p) {
                if s.replicas[p].refusal(m, s.config.leaders) != Some(
                    ProtocolError::UnexpectedMessage,
                ) {
                    lemma_replica_moves(s, w);
                }
            }
        },
    }
}

/// Every state that a well-formed cluster reaches keeps the invariants.
pub proof fn lemma_reachable(config: Config, steps: Seq<Step>)
    requires
        config.well_formed(),
        System::run(config, steps) is Some,
    ensures
        System::run(config, steps)->0.inv(),
    decreases steps.len(),
{
    if steps.len() == 0 {
        lemma_initial(config);
    } else {
        lemma_reachable(config, steps.drop_last());
        lemma_step(System::run(config, steps.drop_last())->0, steps.last());
    }
}

/// One decision per slot. In every state that a well-formed cluster
/// reaches, whatever was lost, repeated or delayed on the way, and whoever
/// crashed: if a commander has announced `c1` as the decision of a slot and
/// a commander has announced `c2` as the decision of the same slot, then
/// `c1` and `c2` are the same command. No two commanders for one slot and
/// different commands both count a majority.
pub proof fn theorem_one_decision_per_slot(
    config: Config,
    steps: Seq<Step>,
    slot: SlotNumber,
    c1: CommandView,
    c2: CommandView,
)
    requires
        config.well_formed(),
        System::run(config, steps) is Some,
        System::run(config, steps)->0.decided(slot, c1),
        System::run(config, steps)->0.decided(slot, c2),
    ensures
        c1 == c2,
{
    lemma_reachable(config, steps);
    lemma_one_decision_per_slot(System::run(config, steps)->0, slot, c1, c2);
}

/// Commanders agree. In every state that a well-formed cluster reaches: no
/// two commanders for the same slot and different commands have both
/// counted a majority.
pub proof fn theorem_commanders_agree(
    config: Config,
    steps: Seq<Step>,
    y1: ProcessId,
    y2: ProcessId,
)
    requires
        config.well_formed(),
        System::run(config, steps) is Some,
        System::run(config, steps)->0.commanders.contains_key(y1),
        System::run(config, steps)->0.commanders.contains_key(y2),
        System::run(config, steps)->0.commanders[y1].slot == System::run(
            config,
            steps,
        )->0.commanders[y2].slot,
        majority_answered(
            System::run(config, steps)->0.commanders[y1].wait,
            System::run(config, steps)->0.commanders[y1].total,
        ),
        majority_answered(
            System::run(config, steps)->0.commanders[y2].wait,
            System::run(config, steps)->0.commanders[y2].total,
        ),
    ensures
        System::run(config, steps)->0.commanders[y1].command == System::run(
            config,
            steps,
        )->0.commanders[y2].command,
{
    lemma_reachable(config, steps);
    lemma_commanders_agree(System::run(config, steps)->0, y1, y2);
}

/// Replicas agree. In every state that a well-formed cluster reaches: if
/// two replicas have both performed a slot, they performed the same command
/// for it.
pub proof fn theorem_replicas_agree(
    config: Config,
    steps: Seq<Step>,
    r1: ProcessId,
    r2: ProcessId,
    slot: SlotNumber,
)
    requires
        config.well_formed(),
        System::run(config, steps) is Some,
        System::run(config, steps)->0.replicas.contains_key(r1),
        System::run(config, steps)->0.replicas.contains_key(r2),
        System::run(config, steps)->0.log[r1].contains_key(slot),
        System::run(config, steps)->0.log[r2].contains_key(slot),
    ensures
        System::run(config, steps)->0.log[r1][slot] == System::run(config, steps)->0.log[r2][slot],
{
    lemma_reachable(config, steps);
    lemma_replicas_agree(System::run(config, steps)->0, r1, r2, slot);
}

/// A replica performs the slots in order, with no gap. In every state that
/// a well-formed cluster reaches: a replica has performed exactly the slots
/// from 1 up to its current one, each with the decision it has on record.
pub proof fn theorem_replica_performs_in_order(
    config: Config,
    steps: Seq<Step>,
    r: ProcessId,
    slot: SlotNumber,
)
    requires
        config.well_formed(),
        System::run(config, steps) is Some,
        System::run(config, steps)->0.replicas.contains_key(r),
    ensures
        System::run(config, steps)->0.log[r].contains_key(slot) <==> 1 <= slot < System::run(
            config,
            steps,
        )->0.replicas[r].slot,
        System::run(config, steps)->0.log[r].contains_key(slot) ==> System::run(
            config,
            steps,
        )->0.replicas[r].decisions.contains_key(slot) && System::run(
            config,
            steps,
        )->0.log[r][slot] == System::run(config, steps)->0.replicas[r].decisions[slot],
{
    lemma_reachable(config, steps);
    let s = System::run(config, steps)->0;
    assert(s.inv_replica(r));
}

/// An active leader has won its ballot. In every state that a well-formed
/// cluster reaches: for every active leader there is a scout for the
/// leader's ballot that has counted a majority of the acceptors, each of
/// which has promised that ballot or a higher one.
pub proof fn theorem_active_leader_won_its_ballot(config: Config, steps: Seq<Step>, l: ProcessId)
    requires
        config.well_formed(),
        System::run(config, steps) is Some,
        System::run(config, steps)->0.leaders.contains_key(l),
        System::run(config, steps)->0.leaders[l].active,
    ensures
        exists|x: ProcessId|
            System::run(config, steps)->0.has_won(
                x,
                System::run(config, steps)->0.leaders[l].ballot,
            ),
{
    lemma_reachable(config, steps);
    let s = System::run(config, steps)->0;
    let x = choose|x: ProcessId| s.backs(x, l);
    assert(s.inv_scout(x));
    assert(s.inv_gathered(x));
    assert(s.has_won(x, s.leaders[l].ballot));
}

/// An acceptor's promise covers all it has accepted. In every state that a
/// well-formed cluster reaches: no acceptor holds a p-value of a ballot
/// above its promise.
pub proof fn theorem_promise_covers_accepted(config: Config, steps: Seq<Step>, a: ProcessId)
    requires
        config.well_formed(),
        System::run(config, steps) is Some,
        System::run(config, steps)->0.acceptors.contains_key(a),
    ensures
        System::run(config, steps)->0.acceptors[a].promise_covers_accepted(),
{
    lemma_reachable(config, steps);
    let s = System::run(config, steps)->0;
    assert(s.inv_acceptor(a));
}

/// No decision from nowhere. In every state that a well-formed cluster
/// reaches: every command that a replica has on record as the decision of
/// a slot is among the proposals of some replica.
pub proof fn theorem_decisions_were_proposed(
    config: Config,
    steps: Seq<Step>,
    r: ProcessId,
    slot: SlotNumber,
)
    requires
        config.well_formed(),
        System::run(config, steps) is Some,
        System::run(config, steps)->0.replicas.contains_key(r),
        System::run(config, steps)->0.replicas[r].decisions.contains_key(slot),
    ensures
        System::run(config, steps)->0.proposed(
            System::run(config, steps)->0.replicas[r].decisions[slot],
        ),
{
    lemma_reachable(config, steps);
    lemma_decisions_were_proposed(System::run(config, steps)->0, r, slot);
}

} // verus!
