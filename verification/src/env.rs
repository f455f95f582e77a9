//! Process identifiers, their total order, and the kinds of process.

use chashmap::CHashMap;
use std::cmp::Ordering;
use vstd::prelude::*;
use vstd::std_specs::cmp::PartialOrdSpecImpl;

verus! {

/// A host address. Version 4 is held as its 32-bit number (first octet most
/// significant), version 6 as its 128-bit number, so that the numeric order
/// is the order of the octets read left to right.
#[derive(Clone, Copy, Debug, PartialEq, Eq, Structural, Hash, Ord)]
pub enum IpAddr {
    V4(u32),
    V6(u128),
}

impl IpAddr {
    /// The order of addresses: every version 4 address comes before every
    /// version 6 address; within a version the numbers decide.
    pub open spec fn compare(self, other: IpAddr) -> Ordering {
        match (self, other) {
            (IpAddr::V4(a), IpAddr::V4(b)) => if a < b {
                Ordering::Less
            } else if a == b {
                Ordering::Equal
            } else {
                Ordering::Greater
            },
            (IpAddr::V4(_), IpAddr::V6(_)) => Ordering::Less,
            (IpAddr::V6(_), IpAddr::V4(_)) => Ordering::Greater,
            (IpAddr::V6(a), IpAddr::V6(b)) => if a < b {
                Ordering::Less
            } else if a == b {
                Ordering::Equal
            } else {
                Ordering::Greater
            },
        }
    }

    /// The version 4 address `a.b.c.d`.
    pub fn v4(a: u8, b: u8, c: u8, d: u8) -> (ip: IpAddr)
        ensures
            ip == IpAddr::V4((a as u32 * 0x100_0000 + b as u32 * 0x1_0000 + c as u32 * 0x100 + d as u32) as u32),
    {
        let hi: u32 = a as u32 * 0x100_0000 + b as u32 * 0x1_0000;
        let lo: u32 = c as u32 * 0x100 + d as u32;
        IpAddr::V4(hi + lo)
    }
}

impl PartialOrd for IpAddr {
    fn partial_cmp(&self, other: &IpAddr) -> (r: Option<Ordering>) {
        match (self, other) {
            (IpAddr::V4(a), IpAddr::V4(b)) => if *a < *b {
                Some(Ordering::Less)
            } else if *a == *b {
                Some(Ordering::Equal)
            } else {
                Some(Ordering::Greater)
            },
            (IpAddr::V4(_), IpAddr::V6(_)) => Some(Ordering::Less),
            (IpAddr::V6(_), IpAddr::V4(_)) => Some(Ordering::Greater),
            (IpAddr::V6(a), IpAddr::V6(b)) => if *a < *b {
                Some(Ordering::Less)
            } else if *a == *b {
                Some(Ordering::Equal)
            } else {
                Some(Ordering::Greater)
            },
        }
    }
}

impl PartialOrdSpecImpl for IpAddr {
    open spec fn obeys_partial_cmp_spec() -> bool {
        true
    }

    open spec fn partial_cmp_spec(&self, other: &IpAddr) -> Option<Ordering> {
        Some(self.compare(*other))
    }
}

/// The identity of one process: where it can be reached, and which of the
/// processes at that place it is.
#[derive(Clone, Copy, Debug, PartialEq, Eq, Structural, Hash, Ord)]
pub struct ProcessId {
    pub ip: IpAddr,
    pub port: u32,
    pub id: u32,
}

impl ProcessId {
    pub fn new(ip: IpAddr, port: u32, id: u32) -> (p: ProcessId)
        ensures
            p == (ProcessId { ip, port, id }),
    {
        ProcessId { ip, port, id }
    }

    /// The order of identifiers: by address, then by port, then by instance.
    pub open spec fn compare(self, other: ProcessId) -> Ordering {
        match self.ip.compare(other.ip) {
            Ordering::Less => Ordering::Less,
            Ordering::Greater => Ordering::Greater,
            Ordering::Equal => if self.port < other.port {
                Ordering::Less
            } else if self.port > other.port {
                Ordering::Greater
            } else if self.id < other.id {
                Ordering::Less
            } else if self.id > other.id {
                Ordering::Greater
            } else {
                Ordering::Equal
            },
        }
    }
}

impl ProcessId {
    /// `self` comes strictly before `other`.
    pub open spec fn below(self, other: ProcessId) -> bool {
        self.compare(other) == Ordering::Less
    }
}

/// The order of addresses is total: of two addresses, one comes before the
/// other or they are the same, and never two of these at once.
pub proof fn lemma_address_order_total(a: IpAddr, b: IpAddr)
    ensures
        a.compare(b) == Ordering::Equal <==> a == b,
        a.compare(b) == Ordering::Less <==> b.compare(a) == Ordering::Greater,
{
}

/// The order of addresses is transitive.
pub proof fn lemma_address_order_transitive(a: IpAddr, b: IpAddr, c: IpAddr)
    requires
        a.compare(b) == Ordering::Less,
        b.compare(c) == Ordering::Less,
    ensures
        a.compare(c) == Ordering::Less,
{
}

/// The order of identifiers is total: of two identifiers, one comes before
/// the other or they are the same, and never two of these at once.
pub proof fn lemma_id_order_total(a: ProcessId, b: ProcessId)
    ensures
        a.compare(b) == Ordering::Equal <==> a == b,
        a.compare(b) == Ordering::Less <==> b.compare(a) == Ordering::Greater,
        a.below(b) || a == b || b.below(a),
        !(a.below(b) && b.below(a)),
        !a.below(a),
{
    lemma_address_order_total(a.ip, b.ip);
    lemma_address_order_total(b.ip, a.ip);
}

/// The order of identifiers is transitive.
pub proof fn lemma_id_order_transitive(a: ProcessId, b: ProcessId, c: ProcessId)
    requires
        a.below(b),
        b.below(c),
    ensures
        a.below(c),
{
    lemma_address_order_total(a.ip, b.ip);
    lemma_address_order_total(b.ip, c.ip);
    lemma_address_order_total(a.ip, c.ip);
    if a.ip.compare(b.ip) == Ordering::Less && b.ip.compare(c.ip) == Ordering::Less {
        lemma_address_order_transitive(a.ip, b.ip, c.ip);
    }
}

impl PartialOrd for ProcessId {
    fn partial_cmp(&self, other: &ProcessId) -> (r: Option<Ordering>) {
        match self.ip.partial_cmp(&other.ip) {
            Some(Ordering::Less) => Some(Ordering::Less),
            Some(Ordering::Greater) => Some(Ordering::Greater),
            _ => if self.port < other.port {
                Some(Ordering::Less)
            } else if self.port > other.port {
                Some(Ordering::Greater)
            } else if self.id < other.id {
                Some(Ordering::Less)
            } else if self.id > other.id {
                Some(Ordering::Greater)
            } else {
                Some(Ordering::Equal)
            },
        }
    }
}

impl PartialOrdSpecImpl for ProcessId {
    open spec fn obeys_partial_cmp_spec() -> bool {
        true
    }

    open spec fn partial_cmp_spec(&self, other: &ProcessId) -> Option<Ordering> {
        Some(self.compare(*other))
    }
}

/// The roles a process can play.
#[derive(Clone, Copy, Debug, PartialEq, Eq, Structural, Hash)]
pub enum ProcessType {
    Acceptor,
    Replica,
    Leader,
    Scout,
    Commander,
}

/// Where `p` stands in `ids`, if it is there.
pub fn index_of(ids: &Vec<ProcessId>, p: ProcessId) -> (r: Option<usize>)
    ensures
        match r {
            Some(i) => i < ids.len() && ids[i as int] == p,
            None => !ids@.contains(p),
        },
{
    let mut i: usize = 0;
    while i < ids.len()
        invariant
            i <= ids.len(),
            forall|j: int| 0 <= j < i ==> ids[j] != p,
        decreases ids.len() - i,
    {
        if ids[i] == p {
            return Some(i);
        }
        i += 1;
    }
    None
}

/// A finite set of process identifiers.
#[derive(Debug)]
pub struct IdSet {
    ids: Vec<ProcessId>,
}

impl View for IdSet {
    type V = Set<ProcessId>;

    closed spec fn view(&self) -> Set<ProcessId> {
        self.ids@.to_set()
    }
}

impl IdSet {
    #[verifier::type_invariant]
    spec fn distinct(&self) -> bool {
        self.ids@.no_duplicates()
    }

    /// The empty set.
    pub fn new() -> (s: IdSet)
        ensures
            s@ == Set::<ProcessId>::empty(),
    {
        let s = IdSet { ids: Vec::new() };
        assert(s@ =~= Set::<ProcessId>::empty());
        s
    }

    /// The set of the identifiers in `ids`.
    pub fn from_list(ids: &Vec<ProcessId>) -> (s: IdSet)
        ensures
            s@ == ids@.to_set(),
    {
        let mut s = IdSet::new();
        let mut i: usize = 0;
        while i < ids.len()
            invariant
                i <= ids.len(),
                s@ == ids@.take(i as int).to_set(),
            decreases ids.len() - i,
        {
            s.insert(ids[i]);
            proof {
                let done = ids@.take(i as int);
                let grown = ids@.take(i + 1);
                assert(grown =~= done.push(ids@[i as int]));
                lemma_push_to_set(done, ids@[i as int]);
            }
            i += 1;
        }
        assert(ids@.take(i as int) =~= ids@);
        s
    }

    /// Whether `p` is a member.
    pub fn contains(&self, p: ProcessId) -> (r: bool)
        ensures
            r == self@.contains(p),
    {
        index_of(&self.ids, p).is_some()
    }

    /// The number of members.
    pub fn len(&self) -> (n: usize)
        ensures
            n == self@.len(),
            self@.finite(),
    {
        proof {
            use_type_invariant(self);
            self.ids@.unique_seq_to_set();
        }
        self.ids.len()
    }

    /// Adds `p`. Returns whether it was new.
    pub fn insert(&mut self, p: ProcessId) -> (r: bool)
        ensures
            final(self)@ == old(self)@.insert(p),
            r == !old(self)@.contains(p),
            !r ==> final(self)@ == old(self)@,
    {
        proof {
            use_type_invariant(&*self);
        }
        if index_of(&self.ids, p).is_some() {
            assert(self@ =~= old(self)@.insert(p));
            return false;
        }
        let mut grown: Vec<ProcessId> = Vec::new();
        let mut i: usize = 0;
        while i < self.ids.len()
            invariant
                i <= self.ids.len(),
                grown@ == self.ids@.take(i as int),
            decreases self.ids.len() - i,
        {
            grown.push(self.ids[i]);
            assert(grown@ =~= self.ids@.take(i + 1));
            i += 1;
        }
        assert(self.ids@.take(i as int) =~= self.ids@);
        grown.push(p);
        proof {
            lemma_push_to_set(self.ids@, p);
        }
        self.ids = grown;
        true
    }

    /// Takes `p` out. Returns whether it was a member.
    pub fn remove(&mut self, p: ProcessId) -> (r: bool)
        ensures
            final(self)@ == old(self)@.remove(p),
            r == old(self)@.contains(p),
            !r ==> final(self)@ == old(self)@,
    {
        proof {
            use_type_invariant(&*self);
        }
        let at = match index_of(&self.ids, p) {
            Some(at) => at,
            None => {
                assert(self@ =~= old(self)@.remove(p));
                return false;
            },
        };
        let mut rest: Vec<ProcessId> = Vec::new();
        let mut i: usize = 0;
        while i < self.ids.len()
            invariant
                i <= self.ids.len(),
                at < self.ids.len(),
                rest@ == if i <= at {
                    self.ids@.take(i as int)
                } else {
                    self.ids@.remove(at as int).take(i - 1)
                },
            decreases self.ids.len() - i,
        {
            if i != at {
                rest.push(self.ids[i]);
            }
            proof {
                if i < at {
                    assert(rest@ =~= self.ids@.take(i + 1));
                } else if i == at {
                    assert(rest@ =~= self.ids@.remove(at as int).take(i as int));
                } else {
                    assert(rest@ =~= self.ids@.remove(at as int).take(i as int));
                }
            }
            i += 1;
        }
        proof {
            assert(rest@ =~= self.ids@.remove(at as int));
            lemma_remove_distinct(self.ids@, at as int);
        }
        self.ids = rest;
        true
    }
}

/// The members of a list with one more identifier at its end.
pub proof fn lemma_push_to_set(ids: Seq<ProcessId>, p: ProcessId)
    ensures
        ids.push(p).to_set() == ids.to_set().insert(p),
        ids.no_duplicates() && !ids.contains(p) ==> ids.push(p).no_duplicates(),
{
    let grown = ids.push(p);
    assert forall|x: ProcessId| grown.to_set().contains(x) <==> ids.to_set().insert(p).contains(
        x,
    ) by {
        if grown.contains(x) {
            let j = choose|j: int| 0 <= j < grown.len() && grown[j] == x;
            if j < ids.len() {
                assert(ids[j] == x);
                assert(ids.contains(x));
            }
        }
        if ids.contains(x) {
            let j = choose|j: int| 0 <= j < ids.len() && ids[j] == x;
            assert(grown[j] == x);
        }
        if x == p {
            assert(grown[ids.len() as int] == x);
        }
    }
    assert(grown.to_set() =~= ids.to_set().insert(p));
    if ids.no_duplicates() && !ids.contains(p) {
        assert forall|a: int, b: int| 0 <= a < grown.len() && 0 <= b < grown.len() && a
            != b implies grown[a] != grown[b] by {
            if a < ids.len() {
                assert(ids.contains(ids[a]));
            }
            if b < ids.len() {
                assert(ids.contains(ids[b]));
            }
        }
    }
}

/// Taking one identifier out of a list without repetitions leaves a list
/// without repetitions, whose members are the others.
pub proof fn lemma_remove_distinct(ids: Seq<ProcessId>, i: int)
    requires
        ids.no_duplicates(),
        0 <= i < ids.len(),
    ensures
        ids.remove(i).no_duplicates(),
        ids.remove(i).to_set() == ids.to_set().remove(ids[i]),
{
    let rest = ids.remove(i);
    assert forall|a: int, b: int| 0 <= a < rest.len() && 0 <= b < rest.len() && a != b implies rest[a]
        != rest[b] by {
        let pa = if a < i { a } else { a + 1 };
        let pb = if b < i { b } else { b + 1 };
        assert(rest[a] == ids[pa] && rest[b] == ids[pb]);
    }
    assert forall|p: ProcessId| rest.to_set().contains(p) <==> ids.to_set().remove(ids[i]).contains(
        p,
    ) by {
        if rest.contains(p) {
            let a = choose|a: int| 0 <= a < rest.len() && rest[a] == p;
            let pa = if a < i { a } else { a + 1 };
            assert(ids[pa] == p);
            assert(ids.contains(p));
        }
        if ids.contains(p) && p != ids[i] {
            let q = choose|q: int| 0 <= q < ids.len() && ids[q] == p;
            let a = if q < i { q } else { q - 1 };
            assert(rest[a] == p);
        }
    }
    assert(rest.to_set() =~= ids.to_set().remove(ids[i]));
}

/// `chashmap::CHashMap`, a hash map that many threads can use at once.
#[verifier::external_type_specification]
#[verifier::external_body]
#[verifier::reject_recursive_types(K)]
#[verifier::reject_recursive_types(V)]
pub struct ExCHashMap<K, V>(CHashMap<K, V>);

/// The entries of a directory map: for each kind that has an entry, the
/// identifiers listed under it, in the order they were listed. The map is
/// held by one owner and changed through `&mut` only, so what it holds
/// depends on nothing but the calls made on it.
pub uninterp spec fn directory_contents(m: CHashMap<ProcessType, Vec<ProcessId>>) -> Map<
    ProcessType,
    Seq<ProcessId>,
>;

/// The directory without entries.
pub open spec fn empty_directory() -> Map<ProcessType, Seq<ProcessId>> {
    Map::empty()
}

/// `CHashMap::new`: a map without entries.
#[verifier::external_body]
fn directory_new() -> (m: CHashMap<ProcessType, Vec<ProcessId>>)
    ensures
        directory_contents(m) == empty_directory(),
{
    CHashMap::new()
}

/// `CHashMap::get`: a copy of the list under `t`, or `None` where the map
/// has no entry for `t`. The read lock is given back before returning.
#[verifier::external_body]
fn directory_get(m: &CHashMap<ProcessType, Vec<ProcessId>>, t: ProcessType) -> (r: Option<
    Vec<ProcessId>,
>)
    ensures
        match r {
            Some(ids) => directory_contents(*m).contains_key(t) && ids@ == directory_contents(
                *m,
            )[t],
            None => !directory_contents(*m).contains_key(t),
        },
{
    m.get(&t).map(|ids| ids.clone())
}

/// `CHashMap::insert`: the entry for `t` becomes `ids`, whether or not there
/// was one; the other entries stay.
#[verifier::external_body]
fn directory_insert(
    m: &mut CHashMap<ProcessType, Vec<ProcessId>>,
    t: ProcessType,
    ids: Vec<ProcessId>,
)
    ensures
        directory_contents(*final(m)) == directory_contents(*old(m)).insert(t, ids@),
{
    m.insert(t, ids);
}

/// The directory of the cluster: which processes play which role, each list
/// in the order of registration. A host that shares the directory among
/// threads keeps it behind a lock and hands out snapshots.
pub struct Cluster {
    map: CHashMap<ProcessType, Vec<ProcessId>>,
}

impl View for Cluster {
    type V = Map<ProcessType, Seq<ProcessId>>;

    closed spec fn view(&self) -> Map<ProcessType, Seq<ProcessId>> {
        directory_contents(self.map)
    }
}

impl Cluster {
    /// The processes registered under `t`; none where `t` has no entry.
    pub open spec fn members(&self, t: ProcessType) -> Seq<ProcessId> {
        if self@.contains_key(t) {
            self@[t]
        } else {
            Seq::empty()
        }
    }

    /// The directory without any process.
    pub fn new() -> (c: Cluster)
        ensures
            c@ == empty_directory(),
    {
        Cluster { map: directory_new() }
    }

    fn get(&self, t: ProcessType) -> (ids: Vec<ProcessId>)
        ensures
            ids@ == self.members(t),
    {
        match directory_get(&self.map, t) {
            Some(ids) => ids,
            None => Vec::new(),
        }
    }

    /// A snapshot of the acceptors.
    pub fn acceptors(&self) -> (ids: Vec<ProcessId>)
        ensures
            ids@ == self.members(ProcessType::Acceptor),
    {
        self.get(ProcessType::Acceptor)
    }

    /// A snapshot of the replicas.
    pub fn replicas(&self) -> (ids: Vec<ProcessId>)
        ensures
            ids@ == self.members(ProcessType::Replica),
    {
        self.get(ProcessType::Replica)
    }

    /// A snapshot of the leaders.
    pub fn leaders(&self) -> (ids: Vec<ProcessId>)
        ensures
            ids@ == self.members(ProcessType::Leader),
    {
        self.get(ProcessType::Leader)
    }

    /// Registers `id` under `t`, after those already there.
    pub fn add(&mut self, t: ProcessType, id: ProcessId)
        ensures
            final(self)@ == old(self)@.insert(t, old(self).members(t).push(id)),
    {
        let mut ids = self.get(t);
        ids.push(id);
        directory_insert(&mut self.map, t, ids);
    }
}

} // verus!
