use paxos::acceptor::Acceptor;
use paxos::env::{Cluster, IpAddr, ProcessId, ProcessType};
use paxos::leader::{Commander, Leader, Scout, Spawn};
use paxos::message::{Message, WireMessage};
use paxos::pval::Command;
use paxos::replica::Replica;
use std::collections::{HashMap, HashSet, VecDeque};

/// A whole cluster in one thread: every process, and the messages on their
/// way, delivered one at a time.
struct Sim {
    cluster: Cluster,
    acceptors: HashMap<ProcessId, Acceptor>,
    leaders: HashMap<ProcessId, Leader>,
    scouts: HashMap<ProcessId, Scout>,
    commanders: HashMap<ProcessId, Commander>,
    replicas: HashMap<ProcessId, Replica>,
    owner: HashMap<ProcessId, ProcessId>,
    crashed: HashSet<ProcessId>,
    queue: VecDeque<WireMessage>,
    next_id: u32,
    executed: HashMap<ProcessId, Vec<Command>>,
    decisions: Vec<(u64, Command)>,
    preemptions: HashMap<ProcessId, usize>,
    seed: u64,
}

fn pid(id: u32) -> ProcessId {
    ProcessId::new(IpAddr::v4(127, 0, 0, 1), 6060, id)
}

fn cmd(client: ProcessId, req: &str, op: &str) -> Command {
    Command::new_from_str(client, req.to_string(), op.to_string())
}

impl Sim {
    fn new(n_acceptors: u32, n_leaders: u32, n_replicas: u32) -> Sim {
        let mut sim = Sim {
            cluster: Cluster::new(),
            acceptors: HashMap::new(),
            leaders: HashMap::new(),
            scouts: HashMap::new(),
            commanders: HashMap::new(),
            replicas: HashMap::new(),
            owner: HashMap::new(),
            crashed: HashSet::new(),
            queue: VecDeque::new(),
            next_id: 0,
            executed: HashMap::new(),
            decisions: vec![],
            preemptions: HashMap::new(),
            seed: 1,
        };
        for _ in 0..n_acceptors {
            let id = sim.fresh();
            sim.cluster.add(ProcessType::Acceptor, id);
            sim.acceptors.insert(id, Acceptor::new(id));
        }
        for _ in 0..n_leaders {
            let id = sim.fresh();
            sim.cluster.add(ProcessType::Leader, id);
            sim.leaders.insert(id, Leader::new(id));
        }
        for _ in 0..n_replicas {
            let id = sim.fresh();
            sim.cluster.add(ProcessType::Replica, id);
            sim.replicas.insert(id, Replica::new(id));
            sim.executed.insert(id, vec![]);
        }
        sim
    }

    fn fresh(&mut self) -> ProcessId {
        self.next_id += 1;
        pid(self.next_id)
    }

    fn send(&mut self, out: Vec<WireMessage>) {
        for w in out {
            if let Message::Decision(_, slot, c) = &w.message {
                self.decisions.push((*slot, c.clone()));
            }
            if let Message::Preempt(_, _) = &w.message {
                *self.preemptions.entry(w.to).or_insert(0) += 1;
            }
            self.queue.push_back(w);
        }
    }

    fn spawn(&mut self, leader: ProcessId, work: Vec<Spawn>) {
        for w in work {
            self.next_id += 1;
            let id = self.next_id;
            match w {
                Spawn::Scout(b) => {
                    assert_eq!(b, self.leaders[&leader].ballot());
                    let mut scout = self.leaders[&leader].scout(id);
                    let out = scout.start(&self.cluster);
                    self.owner.insert(scout.me(), leader);
                    self.scouts.insert(scout.me(), scout);
                    self.send(out);
                }
                Spawn::Commander(b, slot, c) => {
                    let mut commander = self.leaders[&leader].commander(b, slot, c, id);
                    let out = commander.start(&self.cluster);
                    self.owner.insert(commander.me(), leader);
                    self.commanders.insert(commander.me(), commander);
                    self.send(out);
                }
            }
        }
    }

    fn boot(&mut self, leader: ProcessId) {
        let first = self.leaders[&leader].start();
        self.spawn(leader, vec![first]);
    }

    fn boot_all(&mut self) {
        for l in self.cluster.leaders() {
            self.boot(l);
        }
    }

    fn crash(&mut self, p: ProcessId) {
        self.crashed.insert(p);
    }

    fn is_down(&self, p: &ProcessId) -> bool {
        self.crashed.contains(p)
            || self.owner.get(p).map(|l| self.crashed.contains(l)).unwrap_or(false)
    }

    fn request(&mut self, replica: ProcessId, c: &Command) {
        self.queue.push_back(WireMessage::new(replica, Message::Request(c.client, c.clone())));
    }

    fn request_all(&mut self, c: &Command) {
        for r in self.cluster.replicas() {
            self.request(r, c);
        }
    }

    fn deliver(&mut self, w: WireMessage) {
        let to = w.to;
        if self.is_down(&to) {
            return;
        }
        if let Some(a) = self.acceptors.get_mut(&to) {
            let reply = a.exec(w.message).unwrap();
            self.send(vec![reply]);
        } else if self.leaders.contains_key(&to) {
            let work = self.leaders.get_mut(&to).unwrap().exec(w.message).unwrap();
            self.spawn(to, work);
        } else if let Some(s) = self.scouts.get_mut(&to) {
            let out = s.exec(w.message).unwrap();
            self.send(out);
        } else if let Some(c) = self.commanders.get_mut(&to) {
            let out = c.exec(w.message).unwrap();
            self.send(out);
        } else if let Some(r) = self.replicas.get_mut(&to) {
            let out = r.exec(w.message, &self.cluster).unwrap();
            self.executed.get_mut(&to).unwrap().extend(out.performed);
            self.send(out.sent);
        } else {
            panic!("a message to nobody: {:?}", w);
        }
    }

    /// Delivers in the order of sending until nothing is on its way.
    fn run(&mut self) {
        let mut steps = 0;
        while let Some(w) = self.queue.pop_front() {
            self.deliver(w);
            steps += 1;
            assert!(steps < 100_000, "the cluster does not come to rest");
        }
    }

    fn random(&mut self, below: usize) -> usize {
        self.seed = self.seed.wrapping_mul(6364136223846793005).wrapping_add(1442695040888963407);
        ((self.seed >> 33) as usize) % below
    }

    /// Delivers in a scrambled order; now and then a message is lost, now
    /// and then one is delivered and kept for a second delivery.
    fn run_scrambled(&mut self, seed: u64, max_steps: usize) {
        self.seed = seed;
        let mut steps = 0;
        while !self.queue.is_empty() && steps < max_steps {
            let at = self.random(self.queue.len());
            let w = self.queue.remove(at).unwrap();
            match self.random(10) {
                0 => {}
                1 => {
                    self.queue.push_back(w.clone());
                    self.deliver(w);
                }
                _ => self.deliver(w),
            }
            steps += 1;
        }
    }

    fn check_safety(&self, requested: &[Command]) {
        let mut by_slot: HashMap<u64, &Command> = HashMap::new();
        for (slot, c) in &self.decisions {
            assert!(requested.contains(c), "a decision that nobody asked for");
            match by_slot.get(slot) {
                Some(other) => assert_eq!(*other, c, "two decisions for slot {}", slot),
                None => {
                    by_slot.insert(*slot, c);
                }
            }
        }
        for r in self.replicas.values() {
            for slot in 1..r.slot() {
                assert_eq!(r.decision(slot), by_slot.get(&slot).copied());
            }
            let done = &self.executed[&r.me()];
            for (i, c) in done.iter().enumerate() {
                assert!(!done[..i].contains(c), "a command executed twice");
                assert!(requested.contains(c));
            }
        }
        let logs: Vec<&Vec<Command>> = self.executed.values().collect();
        for a in &logs {
            for b in &logs {
                let n = a.len().min(b.len());
                assert_eq!(a[..n], b[..n], "replicas executed different commands");
            }
        }
    }
}

#[test]
fn single_request_stable_leader() {
    let mut sim = Sim::new(3, 2, 2);
    sim.boot_all();
    sim.run();
    let client = pid(1000);
    let c = cmd(client, "r1", "op1");
    sim.request_all(&c);
    sim.run();
    for r in sim.replicas.values() {
        assert_eq!(sim.executed[&r.me()], vec![c.clone()]);
        assert_eq!(r.decision(1), Some(&c));
        assert_eq!(r.decision(2), None);
        assert_eq!(r.slot(), 2);
    }
    sim.check_safety(&[c]);
}

#[test]
fn duplicate_request_is_performed_once() {
    let mut sim = Sim::new(3, 2, 2);
    sim.boot_all();
    sim.run();
    let r1 = sim.cluster.replicas()[0];
    let c = cmd(pid(1000), "r1", "op1");
    sim.request(r1, &c);
    sim.run();
    for _ in 0..9 {
        sim.request(r1, &c);
    }
    sim.run();
    assert_eq!(sim.executed[&r1], vec![c.clone()]);
    assert_eq!(sim.replicas[&r1].slot(), 2);
    for r in sim.replicas.values() {
        assert_eq!(sim.executed[&r.me()], vec![c.clone()]);
        assert_eq!(r.slot(), 2);
    }
    sim.check_safety(&[c]);
}

#[test]
fn duplicate_requests_in_a_burst_are_executed_once() {
    let mut sim = Sim::new(3, 2, 2);
    sim.boot_all();
    sim.run();
    let r1 = sim.cluster.replicas()[0];
    let c = cmd(pid(1000), "r1", "op1");
    for _ in 0..10 {
        sim.request(r1, &c);
    }
    sim.run();
    for r in sim.replicas.values() {
        assert_eq!(sim.executed[&r.me()], vec![c.clone()]);
        assert!(r.slot() >= 2);
        for slot in 1..r.slot() {
            assert_eq!(r.decision(slot), Some(&c));
        }
    }
    sim.check_safety(&[c]);
}

#[test]
fn leader_failover() {
    for victim in 0..2 {
        let mut sim = Sim::new(3, 2, 2);
        sim.boot_all();
        // run until a leader is active, and crash that one
        let mut first_active = None;
        while first_active.is_none() {
            let w = sim.queue.pop_front().unwrap();
            sim.deliver(w);
            first_active = sim.cluster.leaders().into_iter().find(|l| sim.leaders[l].active());
        }
        let crashed = if victim == 0 {
            first_active.unwrap()
        } else {
            sim.run();
            sim.cluster.leaders()[1]
        };
        sim.crash(crashed);
        let c = cmd(pid(1000), "r1", "op1");
        sim.request_all(&c);
        sim.run();
        for r in sim.replicas.values() {
            assert_eq!(sim.executed[&r.me()], vec![c.clone()]);
            assert_eq!(r.decision(1), Some(&c));
            assert_eq!(r.slot(), 2);
        }
        sim.check_safety(&[c]);
    }
}

#[test]
fn duelling_leaders() {
    let mut sim = Sim::new(3, 2, 2);
    let a = sim.cluster.leaders()[0];
    let b = sim.cluster.leaders()[1];
    assert!(a < b);
    sim.boot(a);
    sim.run();
    assert!(sim.leaders[&a].active());
    sim.boot(b);
    sim.run();
    assert!(sim.leaders[&b].active());
    let first = cmd(pid(1000), "r1", "op1");
    sim.request_all(&first);
    sim.run();
    assert!(sim.preemptions.get(&a).copied().unwrap_or(0) >= 1);
    assert!(sim.leaders[&a].ballot().round >= 1);
    assert!(sim.leaders[&a].ballot() > sim.leaders[&b].ballot());
    let second = cmd(pid(1000), "r2", "op2");
    sim.request_all(&second);
    sim.run();
    for r in sim.replicas.values() {
        assert_eq!(sim.executed[&r.me()], vec![first.clone(), second.clone()]);
        assert_eq!(r.slot(), 3);
    }
    sim.check_safety(&[first, second]);
}

#[test]
fn a_command_committed_in_two_slots_is_executed_once() {
    let mut sim = Sim::new(3, 2, 2);
    sim.boot_all();
    sim.run();
    let a = sim.cluster.leaders()[0];
    let b = sim.cluster.leaders()[1];
    let replica = sim.cluster.replicas()[0];
    let c = cmd(pid(1000), "r1", "op1");
    sim.queue.push_back(WireMessage::new(a, Message::Propose(replica, 1, c.clone())));
    sim.queue.push_back(WireMessage::new(b, Message::Propose(replica, 2, c.clone())));
    sim.run();
    for r in sim.replicas.values() {
        assert_eq!(r.decision(1), Some(&c));
        assert_eq!(r.decision(2), Some(&c));
        assert_eq!(sim.executed[&r.me()], vec![c.clone()]);
        assert_eq!(r.slot(), 3);
    }
    sim.check_safety(&[c]);
}

#[test]
fn one_acceptor_is_enough_for_a_cluster() {
    let mut sim = Sim::new(1, 1, 1);
    sim.boot_all();
    let c = cmd(pid(1000), "r1", "op1");
    sim.request_all(&c);
    sim.run();
    for r in sim.replicas.values() {
        assert_eq!(sim.executed[&r.me()], vec![c.clone()]);
    }
    sim.check_safety(&[c]);
}

#[test]
fn two_acceptors_halt_when_one_crashes() {
    let mut sim = Sim::new(2, 1, 1);
    let down = sim.cluster.acceptors()[1];
    sim.crash(down);
    sim.boot_all();
    let c = cmd(pid(1000), "r1", "op1");
    sim.request_all(&c);
    sim.run();
    for r in sim.replicas.values() {
        assert_eq!(sim.executed[&r.me()], vec![]);
        assert_eq!(r.slot(), 1);
    }
    assert!(sim.decisions.is_empty());
    // with both up, the same cluster decides
    let mut sim = Sim::new(2, 1, 1);
    sim.boot_all();
    sim.request_all(&c);
    sim.run();
    for r in sim.replicas.values() {
        assert_eq!(sim.executed[&r.me()], vec![c.clone()]);
    }
}

#[test]
fn a_minority_of_crashed_acceptors_does_no_harm() {
    let mut sim = Sim::new(5, 2, 3);
    let acceptors = sim.cluster.acceptors();
    sim.crash(acceptors[0]);
    sim.crash(acceptors[3]);
    sim.boot_all();
    let requests: Vec<Command> =
        (0..5).map(|i| cmd(pid(1000 + i), &format!("Request:{}", i), &format!("Op:{}", i))).collect();
    for c in &requests {
        sim.request_all(c);
    }
    sim.run();
    for r in sim.replicas.values() {
        assert_eq!(sim.executed[&r.me()].len(), 5);
    }
    sim.check_safety(&requests);
}

#[test]
fn scrambled_lossy_delivery_keeps_the_replicas_in_agreement() {
    for seed in 1..40u64 {
        let mut sim = Sim::new(3, 2, 2);
        sim.boot_all();
        let requests: Vec<Command> = (0..6)
            .map(|i| cmd(pid(1000 + i), &format!("Request:{}", i), &format!("Op:{}", i)))
            .collect();
        for (i, c) in requests.iter().enumerate() {
            if i % 2 == 0 {
                sim.request_all(c);
            } else {
                let r = sim.cluster.replicas()[i % 2];
                sim.request(r, c);
            }
            sim.run_scrambled(seed * 7919 + i as u64, 200);
            sim.check_safety(&requests);
        }
        sim.run_scrambled(seed, 20_000);
        sim.check_safety(&requests);
    }
}
