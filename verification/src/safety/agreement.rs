//! What the invariants give: one decision per slot, replicas that perform
//! the same commands, and no decision that no replica proposed.

use crate::env::ProcessId;
use crate::leader::{lemma_majorities_meet, majority_answered};
use crate::message::WireMessageView;
use crate::pval::{lemma_ballot_order_total, CommandView, SlotNumber};
use crate::safety::model::{Config, System, Vote};
use vstd::prelude::*;

verus! {

/// The acceptors of a well-formed configuration are as many as the list is
/// long.
pub proof fn lemma_acceptor_count(config: Config)
    requires
        config.well_formed(),
    ensures
        config.acceptors.to_set().finite(),
        config.acceptors.to_set().len() == config.acceptors.len(),
{
    config.acceptors.unique_seq_to_set();
    vstd::seq_lib::seq_to_set_is_finite(config.acceptors);
}

/// Two commanders that have both counted a majority share an acceptor that
/// both have counted; so do a commander and a scout.
pub proof fn lemma_counted_by_both(s: System, first: Set<ProcessId>, second: Set<ProcessId>)
    requires
        s.config.well_formed(),
        forall|a: ProcessId| #[trigger] first.contains(a) ==> s.is_acceptor(a),
        forall|a: ProcessId| #[trigger] second.contains(a) ==> s.is_acceptor(a),
        majority_answered(first, s.config.acceptors.len()),
        majority_answered(second, s.config.acceptors.len()),
    ensures
        exists|a: ProcessId| s.counted(first, a) && s.counted(second, a),
{
    let all = s.config.acceptors.to_set();
    lemma_acceptor_count(s.config);
    assert(first.subset_of(all));
    assert(second.subset_of(all));
    lemma_majorities_meet(all, first, second);
    let a = choose|a: ProcessId| all.contains(a) && !first.contains(a) && !second.contains(a);
    assert(s.counted(first, a) && s.counted(second, a));
}

/// Where a commander has counted a majority for `first` under a ballot
/// below that of a commander that works for `second` in the same slot, the
/// two commands are the same.
proof fn lemma_lower_chosen_is_kept(s: System, low: ProcessId, high: ProcessId)
    requires
        s.inv(),
        s.commanders.contains_key(low),
        s.commanders.contains_key(high),
        s.commanders[low].slot == s.commanders[high].slot,
        s.commanders[low].ballot.below(s.commanders[high].ballot),
        majority_answered(s.commanders[low].wait, s.commanders[low].total),
    ensures
        s.commanders[low].command == s.commanders[high].command,
{
    let l = s.commanders[low];
    let h = s.commanders[high];
    assert(s.inv_commander(low));
    assert(s.inv_counted(low));
    assert(s.safe_at(h.ballot, h.slot, h.command));
    assert(s.settled(l.ballot, h.slot, h.command));
    if exists|a: ProcessId| s.voted(a, l.ballot, h.slot, h.command) {
        let a = choose|a: ProcessId| s.voted(a, l.ballot, h.slot, h.command);
        let v = Vote { acceptor: a, ballot: l.ballot, slot: h.slot, command: h.command };
        assert(s.inv_vote(v));
        let other = choose|y: ProcessId| s.commands(y, l.ballot, h.slot, h.command);
        assert(s.commanders[other].command == s.commanders[low].command);
    } else {
        let x = choose|x: ProcessId| s.blocks(x, l.ballot, h.slot);
        assert(s.inv_scout(x));
        lemma_counted_by_both(s, s.scouts[x].wait, l.wait);
        let a = choose|a: ProcessId| s.counted(s.scouts[x].wait, a) && s.counted(l.wait, a);
        assert(s.voted(a, l.ballot, l.slot, l.command));
        assert(s.voted_at(a, l.ballot, h.slot));
        assert(false);
    }
}

/// No two commanders for the same slot and different commands both count a
/// majority.
pub proof fn lemma_commanders_agree(s: System, y1: ProcessId, y2: ProcessId)
    requires
        s.inv(),
        s.commanders.contains_key(y1),
        s.commanders.contains_key(y2),
        s.commanders[y1].slot == s.commanders[y2].slot,
        majority_answered(s.commanders[y1].wait, s.commanders[y1].total),
        majority_answered(s.commanders[y2].wait, s.commanders[y2].total),
    ensures
        s.commanders[y1].command == s.commanders[y2].command,
{
    let k1 = s.commanders[y1];
    let k2 = s.commanders[y2];
    lemma_ballot_order_total(k1.ballot, k2.ballot);
    if k1.ballot.below(k2.ballot) {
        lemma_lower_chosen_is_kept(s, y1, y2);
    } else if k2.ballot.below(k1.ballot) {
        lemma_lower_chosen_is_kept(s, y2, y1);
    }
}

/// One decision per slot: in a cluster that keeps the invariants, no two
/// commanders that have both counted a majority for the same slot work for
/// different commands. Two decisions announced for one slot are for the
/// same command.
pub proof fn lemma_one_decision_per_slot(s: System, slot: SlotNumber, c1: CommandView, c2: CommandView)
    requires
        s.inv(),
        s.decided(slot, c1),
        s.decided(slot, c2),
    ensures
        c1 == c2,
{
    let w1 = choose|w: WireMessageView| #[trigger]
        s.network.contains(w) && w.message.decides(slot, c1);
    let w2 = choose|w: WireMessageView| #[trigger]
        s.network.contains(w) && w.message.decides(slot, c2);
    assert(s.inv_message(w1));
    assert(s.inv_message(w2));
    lemma_commanders_agree(s, w1.message.id(), w2.message.id());
}

/// Replicas agree: where two replicas have each performed a slot, they
/// performed the same command for it.
pub proof fn lemma_replicas_agree(s: System, r1: ProcessId, r2: ProcessId, slot: SlotNumber)
    requires
        s.inv(),
        s.replicas.contains_key(r1),
        s.replicas.contains_key(r2),
        s.log[r1].contains_key(slot),
        s.log[r2].contains_key(slot),
    ensures
        s.log[r1][slot] == s.log[r2][slot],
{
    assert(s.inv_replica(r1));
    assert(s.inv_replica(r2));
    lemma_one_decision_per_slot(s, slot, s.log[r1][slot], s.log[r2][slot]);
}

/// No decision from nowhere: every command that a replica has on record as
/// decided was proposed by some replica.
pub proof fn lemma_decisions_were_proposed(s: System, r: ProcessId, slot: SlotNumber)
    requires
        s.inv(),
        s.replicas.contains_key(r),
        s.replicas[r].decisions.contains_key(slot),
    ensures
        s.proposed(s.replicas[r].decisions[slot]),
{
    let c = s.replicas[r].decisions[slot];
    assert(s.inv_replica(r));
    assert(s.decided(slot, c));
    let w = choose|w: WireMessageView| #[trigger] s.network.contains(w) && w.message.decides(slot, c);
    assert(s.inv_message(w));
}

} // verus!
