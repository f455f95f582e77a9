//! The record of accepted p-values, and the slots of a map in ascending order.

use crate::pval::{lemma_ballot_order_total, PValue, PValueView, SlotNumber};
use std::collections::HashMap;
use vstd::pervasive::unreached;
use vstd::prelude::*;
use vstd::std_specs::hash::*;
use vstd::std_specs::iter::IteratorSpec;

verus! {

broadcast use group_hash_axioms;

/// The keys of `m`, each once, in no particular order.
fn keys_of<V>(m: &HashMap<SlotNumber, V>) -> (keys: Vec<SlotNumber>)
    ensures
        keys@.no_duplicates(),
        keys@.to_set() == m@.dom(),
{
    let mut keys: Vec<SlotNumber> = Vec::new();
    let ghost all = m.keys().remaining().unref();
    for k in it: m.keys()
        invariant
            it.seq().unref() == all,
            keys@ == all.take(it.index()),
    {
        keys.push(*k);
        assert(keys@ =~= all.take(it.index() + 1));
    }
    assert(keys@ =~= all);
    keys
}

/// `s` lists its elements in strictly ascending order.
pub open spec fn strictly_ascending(s: Seq<SlotNumber>) -> bool {
    forall|i: int, j: int| 0 <= i < j < s.len() ==> s[i] < s[j]
}

/// The members of `dom` that are less than `bound`, in ascending order.
pub open spec fn ascending_below(dom: Set<SlotNumber>, bound: nat) -> Seq<SlotNumber>
    decreases bound,
{
    if bound == 0 {
        Seq::empty()
    } else {
        let rest = ascending_below(dom, (bound - 1) as nat);
        if bound - 1 <= u64::MAX && dom.contains((bound - 1) as u64) {
            rest.push((bound - 1) as u64)
        } else {
            rest
        }
    }
}

/// The members of `dom` in ascending order.
pub open spec fn ascending(dom: Set<SlotNumber>) -> Seq<SlotNumber> {
    ascending_below(dom, 0x1_0000_0000_0000_0000)
}

/// `ascending_below` lists exactly the members under the bound, smallest first.
pub proof fn lemma_ascending_below(dom: Set<SlotNumber>, bound: nat)
    ensures
        strictly_ascending(ascending_below(dom, bound)),
        forall|k: SlotNumber| #[trigger]
            ascending_below(dom, bound).contains(k) <==> dom.contains(k) && k < bound,
    decreases bound,
{
    let all = ascending_below(dom, bound);
    if bound == 0 {
        assert forall|k: SlotNumber| !all.contains(k) by {
            if all.contains(k) {
                let i = choose|i: int| 0 <= i < all.len() && all[i] == k;
            }
        }
    } else {
        let rest = ascending_below(dom, (bound - 1) as nat);
        lemma_ascending_below(dom, (bound - 1) as nat);
        if bound - 1 <= u64::MAX && dom.contains((bound - 1) as u64) {
            let top = (bound - 1) as u64;
            assert(all == rest.push(top));
            assert forall|i: int, j: int| 0 <= i < j < all.len() implies all[i] < all[j] by {
                assert(all[i] == rest[i]);
                if j == rest.len() {
                    assert(rest.contains(rest[i]));
                } else {
                    assert(all[j] == rest[j]);
                }
            }
            assert forall|k: SlotNumber| #[trigger]
                all.contains(k) <==> dom.contains(k) && k < bound by {
                if all.contains(k) {
                    let i = choose|i: int| 0 <= i < all.len() && all[i] == k;
                    if i < rest.len() {
                        assert(rest[i] == k);
                        assert(rest.contains(k));
                    }
                }
                if dom.contains(k) && k < bound {
                    if k == top {
                        assert(all[rest.len() as int] == k);
                    } else {
                        assert(rest.contains(k));
                        let i = choose|i: int| 0 <= i < rest.len() && rest[i] == k;
                        assert(all[i] == k);
                    }
                }
            }
        } else {
            assert(all == rest);
            assert forall|k: SlotNumber| #[trigger]
                all.contains(k) <==> dom.contains(k) && k < bound by {
                assert(rest.contains(k) <==> dom.contains(k) && k < bound - 1);
            }
        }
    }
}

/// There is one way only to list a set in ascending order.
pub proof fn lemma_ascending_unique(s: Seq<SlotNumber>, dom: Set<SlotNumber>, bound: nat)
    requires
        strictly_ascending(s),
        forall|k: SlotNumber| #[trigger] s.contains(k) <==> dom.contains(k) && k < bound,
    ensures
        s == ascending_below(dom, bound),
    decreases bound,
{
    if bound == 0 {
        if s.len() > 0 {
            assert(s.contains(s[0]));
        }
        assert(s =~= Seq::empty());
    } else {
        let rest = ascending_below(dom, (bound - 1) as nat);
        if bound - 1 <= u64::MAX && dom.contains((bound - 1) as u64) {
            let top = (bound - 1) as u64;
            assert(s.contains(top));
            let i = choose|i: int| 0 <= i < s.len() && s[i] == top;
            if i < s.len() - 1 {
                assert(s.contains(s[i + 1]));
            }
            let front = s.drop_last();
            assert forall|k: SlotNumber| #[trigger]
                front.contains(k) <==> dom.contains(k) && k < bound - 1 by {
                if front.contains(k) {
                    let j = choose|j: int| 0 <= j < front.len() && front[j] == k;
                    assert(s[j] == k);
                    assert(s.contains(k));
                }
                if dom.contains(k) && k < bound - 1 {
                    assert(s.contains(k));
                    let j = choose|j: int| 0 <= j < s.len() && s[j] == k;
                    assert(front[j] == k);
                }
            }
            lemma_ascending_unique(front, dom, (bound - 1) as nat);
            assert(s =~= rest.push(top));
        } else {
            assert forall|k: SlotNumber| #[trigger]
                s.contains(k) <==> dom.contains(k) && k < bound - 1 by {}
            lemma_ascending_unique(s, dom, (bound - 1) as nat);
        }
    }
}

/// What `ascending` is: the one strictly ascending listing of `dom`.
pub proof fn lemma_ascending(dom: Set<SlotNumber>)
    ensures
        strictly_ascending(ascending(dom)),
        forall|k: SlotNumber| #[trigger] ascending(dom).contains(k) <==> dom.contains(k),
        ascending(dom).no_duplicates(),
{
    lemma_ascending_below(dom, 0x1_0000_0000_0000_0000);
}

/// The keys of `m` in ascending order.
pub fn ascending_keys<V>(m: &HashMap<SlotNumber, V>) -> (keys: Vec<SlotNumber>)
    ensures
        keys@ == ascending(m@.dom()),
{
    let unordered = keys_of(m);
    let mut keys: Vec<SlotNumber> = Vec::new();
    let mut i: usize = 0;
    while i < unordered.len()
        invariant
            i <= unordered.len(),
            unordered@.no_duplicates(),
            strictly_ascending(keys@),
            forall|k: SlotNumber| keys@.contains(k) <==> unordered@.take(i as int).contains(k),
        decreases unordered.len() - i,
    {
        let k = unordered[i];
        let mut at: usize = 0;
        while at < keys.len() && keys[at] < k
            invariant
                at <= keys.len(),
                forall|j: int| 0 <= j < at ==> keys[j] < k,
            decreases keys.len() - at,
        {
            at += 1;
        }
        let ghost before = keys@;
        proof {
            if at < keys.len() && keys[at as int] == k {
                assert(before.contains(k));
                let j = choose|j: int| 0 <= j < i && unordered@.take(i as int)[j] == k;
                assert(unordered@[j] == unordered@[i as int]);
            }
        }
        keys.insert(at, k);
        proof {
            assert forall|a: int, b: int| 0 <= a < b < keys.len() implies keys[a] < keys[b] by {
                let pa = if a < at { a } else { a - 1 };
                let pb = if b < at { b } else { b - 1 };
                if a != at && b != at {
                    assert(before[pa] < before[pb]);
                } else if a == at {
                    assert(before[at as int] <= before[pb]);
                }
            }
            assert forall|x: SlotNumber| keys@.contains(x) <==> unordered@.take(i + 1).contains(
                x,
            ) by {
                let grown = unordered@.take(i + 1);
                let prior = unordered@.take(i as int);
                if keys@.contains(x) {
                    let j = choose|j: int| 0 <= j < keys.len() && keys[j] == x;
                    if j == at {
                        assert(grown[i as int] == x);
                    } else {
                        let pj = if j < at { j } else { j - 1 };
                        assert(before[pj] == x);
                        assert(before.contains(x));
                        let q = choose|q: int| 0 <= q < prior.len() && prior[q] == x;
                        assert(grown[q] == x);
                    }
                }
                if grown.contains(x) {
                    let q = choose|q: int| 0 <= q < grown.len() && grown[q] == x;
                    if q == i {
                        assert(keys[at as int] == x);
                    } else {
                        assert(prior[q] == x);
                        assert(before.contains(x));
                        let j = choose|j: int| 0 <= j < before.len() && before[j] == x;
                        let nj = if j < at { j } else { j + 1 };
                        assert(keys[nj] == x);
                    }
                }
            }
        }
        i += 1;
    }
    proof {
        assert(unordered@.take(i as int) =~= unordered@);
        assert forall|k: SlotNumber| #[trigger]
            keys@.contains(k) <==> m@.dom().contains(k) && k < 0x1_0000_0000_0000_0000 by {
            assert(unordered@.contains(k) <==> unordered@.to_set().contains(k));
        }
        lemma_ascending_unique(keys@, m@.dom(), 0x1_0000_0000_0000_0000);
    }
    keys
}

/// What an acceptor has accepted: for each slot at most one p-value, the one
/// with the highest ballot it ever accepted there.
#[derive(Debug, PartialEq, Eq)]
pub struct Accepted {
    m: HashMap<SlotNumber, PValue>,
}

/// `m` after `v` was offered for slot `k`: `v` takes the slot if the slot is
/// free or holds a p-value of a strictly lower ballot.
pub open spec fn accepted_insert(
    m: Map<SlotNumber, PValueView>,
    k: SlotNumber,
    v: PValueView,
) -> Map<SlotNumber, PValueView> {
    if m.contains_key(k) && !m[k].ballot.below(v.ballot) {
        m
    } else {
        m.insert(k, v)
    }
}

/// The per-slot maximum of two records. Where both hold a slot at the same
/// ballot, `a` keeps it.
pub open spec fn accepted_merge(
    a: Map<SlotNumber, PValueView>,
    b: Map<SlotNumber, PValueView>,
) -> Map<SlotNumber, PValueView> {
    Map::new(
        |k: SlotNumber| a.contains_key(k) || b.contains_key(k),
        |k: SlotNumber|
            if b.contains_key(k) && (!a.contains_key(k) || a[k].ballot.below(b[k].ballot)) {
                b[k]
            } else {
                a[k]
            },
    )
}

/// After an offer the slot holds a p-value, either the one offered or the
/// one that was there, and its ballot is below neither.
pub proof fn lemma_insert_keeps_maximum(m: Map<SlotNumber, PValueView>, k: SlotNumber, v: PValueView)
    ensures
        accepted_insert(m, k, v).contains_key(k),
        accepted_insert(m, k, v)[k] == v || (m.contains_key(k) && accepted_insert(m, k, v)[k]
            == m[k]),
        v.ballot.at_most(accepted_insert(m, k, v)[k].ballot),
        m.contains_key(k) ==> m[k].ballot.at_most(accepted_insert(m, k, v)[k].ballot),
        forall|s: SlotNumber|
            s != k ==> (#[trigger] accepted_insert(m, k, v).contains_key(s) <==> m.contains_key(s)),
        forall|s: SlotNumber|
            s != k && m.contains_key(s) ==> #[trigger] accepted_insert(m, k, v)[s] == m[s],
{
    if m.contains_key(k) {
        lemma_ballot_order_total(m[k].ballot, v.ballot);
    }
    lemma_ballot_order_total(v.ballot, v.ballot);
}

/// A merged record holds, for every slot that either record holds, the
/// p-value of one of them, and its ballot is below that of neither.
pub proof fn lemma_merge_takes_maximum(
    a: Map<SlotNumber, PValueView>,
    b: Map<SlotNumber, PValueView>,
    s: SlotNumber,
)
    ensures
        accepted_merge(a, b).contains_key(s) <==> a.contains_key(s) || b.contains_key(s),
        accepted_merge(a, b).contains_key(s) ==> (a.contains_key(s) && accepted_merge(a, b)[s]
            == a[s]) || (b.contains_key(s) && accepted_merge(a, b)[s] == b[s]),
        a.contains_key(s) ==> a[s].ballot.at_most(accepted_merge(a, b)[s].ballot),
        b.contains_key(s) ==> b[s].ballot.at_most(accepted_merge(a, b)[s].ballot),
{
    if a.contains_key(s) && b.contains_key(s) {
        lemma_ballot_order_total(a[s].ballot, b[s].ballot);
    }
    if a.contains_key(s) {
        lemma_ballot_order_total(a[s].ballot, a[s].ballot);
    }
    if b.contains_key(s) {
        lemma_ballot_order_total(b[s].ballot, b[s].ballot);
    }
}

impl View for Accepted {
    type V = Map<SlotNumber, PValueView>;

    closed spec fn view(&self) -> Map<SlotNumber, PValueView> {
        self.m@.map_values(|p: PValue| p@)
    }
}

impl Accepted {
    /// The empty record.
    pub fn new() -> (a: Accepted)
        ensures
            a@ == Map::<SlotNumber, PValueView>::empty(),
    {
        let a = Accepted { m: HashMap::new() };
        assert(a@ =~= Map::<SlotNumber, PValueView>::empty());
        a
    }

    /// Offers `v` for slot `k`; the p-value with the higher ballot stays.
    pub fn insert(&mut self, k: SlotNumber, v: PValue)
        ensures
            final(self)@ == accepted_insert(old(self)@, k, v@),
    {
        let replace = match self.m.get(&k) {
            Some(e) => e.ballot < v.ballot,
            None => true,
        };
        if replace {
            self.m.insert(k, v);
            assert(self@ =~= old(self)@.insert(k, v@));
        }
    }

    /// Merges `accepted` into this record, slot by slot.
    pub fn extend(&mut self, accepted: Accepted)
        ensures
            final(self)@ == accepted_merge(old(self)@, accepted@),
    {
        self.merge_from(&accepted);
    }

    fn merge_from(&mut self, accepted: &Accepted)
        ensures
            final(self)@ == accepted_merge(old(self)@, accepted@),
    {
        let keys = ascending_keys(&accepted.m);
        proof {
            lemma_ascending(accepted.m@.dom());
        }
        let mut i: usize = 0;
        while i < keys.len()
            invariant
                i <= keys.len(),
                keys@ == ascending(accepted.m@.dom()),
                keys@.no_duplicates(),
                forall|k: SlotNumber| #[trigger] keys@.contains(k) <==> accepted@.contains_key(k),
                forall|k: SlotNumber| #[trigger]
                    self@.contains_key(k) <==> old(self)@.contains_key(k) || keys@.take(
                        i as int,
                    ).contains(k),
                forall|k: SlotNumber| #[trigger]
                    self@.contains_key(k) ==> self@[k] == if keys@.take(i as int).contains(k) {
                        accepted_merge(old(self)@, accepted@)[k]
                    } else {
                        old(self)@[k]
                    },
            decreases keys.len() - i,
        {
            let k = keys[i];
            assert(keys@.contains(k));
            let ghost before = self@;
            let ghost done = keys@.take(i as int);
            let ghost grown = keys@.take(i + 1);
            match accepted.m.get(&k) {
                Some(p) => {
                    self.insert(k, p.clone());
                },
                None => {},
            }
            proof {
                assert(!done.contains(k)) by {
                    if done.contains(k) {
                        let j = choose|j: int| 0 <= j < done.len() && done[j] == k;
                        assert(keys@[j] == keys@[i as int]);
                    }
                }
                assert forall|x: SlotNumber| grown.contains(x) <==> done.contains(x) || x
                    == k by {
                    if grown.contains(x) {
                        let j = choose|j: int| 0 <= j < grown.len() && grown[j] == x;
                        if j < i {
                            assert(done[j] == x);
                        }
                    }
                    if done.contains(x) {
                        let j = choose|j: int| 0 <= j < done.len() && done[j] == x;
                        assert(grown[j] == x);
                    }
                    if x == k {
                        assert(grown[i as int] == x);
                    }
                }
            }
            i += 1;
        }
        proof {
            assert(keys@.take(i as int) =~= keys@);
            assert(self@ =~= accepted_merge(old(self)@, accepted@));
        }
    }

    /// The p-value held for `slot`, if there is one.
    pub fn get(&self, slot: SlotNumber) -> (r: Option<&PValue>)
        ensures
            match r {
                Some(p) => self@.contains_key(slot) && p@ == self@[slot],
                None => !self@.contains_key(slot),
            },
    {
        self.m.get(&slot)
    }

    /// The slots that hold a p-value, in ascending order.
    pub fn slots(&self) -> (r: Vec<SlotNumber>)
        ensures
            r@ == ascending(self@.dom()),
    {
        assert(self@.dom() =~= self.m@.dom());
        ascending_keys(&self.m)
    }

    /// The entries of the record, in ascending order of slot.
    pub fn iter(&self) -> (entries: Vec<(SlotNumber, &PValue)>)
        ensures
            entries@.len() == ascending(self@.dom()).len(),
            forall|i: int|
                0 <= i < entries@.len() ==> (#[trigger] entries@[i]).0 == ascending(self@.dom())[i]
                    && self@.contains_key(entries@[i].0) && entries@[i].1@ == self@[entries@[i].0],
    {
        let slots = ascending_keys(&self.m);
        assert(self@.dom() =~= self.m@.dom());
        proof {
            lemma_ascending(self.m@.dom());
            assert forall|j: int| 0 <= j < slots@.len() implies self.m@.contains_key(
                #[trigger] slots@[j],
            ) by {
                assert(slots@.contains(slots@[j]));
            }
        }
        let mut entries: Vec<(SlotNumber, &PValue)> = Vec::new();
        let mut i: usize = 0;
        while i < slots.len()
            invariant
                i <= slots.len(),
                slots@ == ascending(self@.dom()),
                forall|j: int| 0 <= j < slots@.len() ==> self.m@.contains_key(#[trigger] slots@[j]),
                entries@.len() == i,
                forall|j: int|
                    0 <= j < i ==> (#[trigger] entries@[j]).0 == slots@[j] && self@.contains_key(
                        entries@[j].0,
                    ) && entries@[j].1@ == self@[entries@[j].0],
            decreases slots.len() - i,
        {
            match self.m.get(&slots[i]) {
                Some(p) => {
                    entries.push((slots[i], p));
                },
                None => unreached(),
            }
            i += 1;
        }
        entries
    }

    /// A map with the same slots, in which each p-value is replaced by what
    /// `f` makes of it.
    pub fn map<T, F: Fn(PValue) -> T>(self, f: F) -> (r: HashMap<SlotNumber, T>)
        requires
            forall|p: PValue| #[trigger] f.requires((p,)),
        ensures
            r@.dom() == self@.dom(),
            forall|k: SlotNumber| #[trigger]
                r@.contains_key(k) ==> exists|p: PValue| p@ == self@[k] && f.ensures((p,), r@[k]),
    {
        let slots = ascending_keys(&self.m);
        assert(self@.dom() =~= self.m@.dom());
        proof {
            lemma_ascending(self.m@.dom());
        }
        let mut r: HashMap<SlotNumber, T> = HashMap::new();
        let mut i: usize = 0;
        while i < slots.len()
            invariant
                i <= slots.len(),
                slots@ == ascending(self@.dom()),
                forall|k: SlotNumber| #[trigger] slots@.contains(k) <==> self@.contains_key(k),
                forall|p: PValue| #[trigger] f.requires((p,)),
                forall|k: SlotNumber| #[trigger]
                    r@.contains_key(k) <==> slots@.take(i as int).contains(k),
                forall|k: SlotNumber| #[trigger]
                    r@.contains_key(k) ==> exists|p: PValue|
                        p@ == self@[k] && f.ensures((p,), r@[k]),
            decreases slots.len() - i,
        {
            let k = slots[i];
            let ghost done = slots@.take(i as int);
            let ghost grown = slots@.take(i + 1);
            let ghost before = r@;
            assert(slots@.contains(k));
            match self.m.get(&k) {
                Some(p) => {
                    let q = p.clone();
                    let out = f(q);
                    r.insert(k, out);
                    assert(q@ == self@[k] && f.ensures((q,), r@[k]));
                },
                None => unreached(),
            }
            proof {
                assert forall|x: SlotNumber| grown.contains(x) <==> done.contains(x) || x
                    == k by {
                    if grown.contains(x) {
                        let j = choose|j: int| 0 <= j < grown.len() && grown[j] == x;
                        if j < i {
                            assert(done[j] == x);
                        }
                    }
                    if done.contains(x) {
                        let j = choose|j: int| 0 <= j < done.len() && done[j] == x;
                        assert(grown[j] == x);
                    }
                    if x == k {
                        assert(grown[i as int] == x);
                    }
                }
                assert forall|x: SlotNumber| #[trigger] r@.contains_key(x) implies exists|p: PValue|
                    p@ == self@[x] && f.ensures((p,), r@[x]) by {
                    if x != k {
                        assert(before.contains_key(x));
                        let p = choose|p: PValue| p@ == self@[x] && f.ensures((p,), before[x]);
                        assert(p@ == self@[x] && f.ensures((p,), r@[x]));
                    }
                }
            }
            i += 1;
        }
        proof {
            assert(slots@.take(i as int) =~= slots@);
            assert(r@.dom() =~= self@.dom());
        }
        r
    }

    /// The number of slots that hold a p-value.
    pub fn len(&self) -> (n: usize)
        ensures
            n == self@.dom().len(),
    {
        assert(self@.dom() =~= self.m@.dom());
        self.m.len()
    }
}

impl Clone for Accepted {
    fn clone(&self) -> (a: Accepted)
        ensures
            a@ == self@,
    {
        let mut a = Accepted::new();
        a.merge_from(self);
        assert(a@ =~= self@);
        a
    }
}

} // verus!
