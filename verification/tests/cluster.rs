use paxos::env::{Cluster, IdSet, IpAddr, ProcessId, ProcessType};

fn pid(id: u32) -> ProcessId {
    ProcessId::new(IpAddr::v4(127, 0, 0, 1), 6060, id)
}

#[test]
fn empty_directory_lists_nobody() {
    let c = Cluster::new();
    assert_eq!(c.acceptors(), vec![]);
    assert_eq!(c.replicas(), vec![]);
    assert_eq!(c.leaders(), vec![]);
}

#[test]
fn directory_keeps_registration_order_per_role() {
    let mut c = Cluster::new();
    c.add(ProcessType::Acceptor, pid(3));
    c.add(ProcessType::Leader, pid(10));
    c.add(ProcessType::Acceptor, pid(1));
    c.add(ProcessType::Replica, pid(20));
    c.add(ProcessType::Acceptor, pid(2));
    c.add(ProcessType::Scout, pid(30));
    c.add(ProcessType::Commander, pid(31));
    assert_eq!(c.acceptors(), vec![pid(3), pid(1), pid(2)]);
    assert_eq!(c.leaders(), vec![pid(10)]);
    assert_eq!(c.replicas(), vec![pid(20)]);
}

#[test]
fn snapshot_is_a_copy() {
    let mut c = Cluster::new();
    c.add(ProcessType::Replica, pid(1));
    let before = c.replicas();
    c.add(ProcessType::Replica, pid(2));
    assert_eq!(before, vec![pid(1)]);
    assert_eq!(c.replicas(), vec![pid(1), pid(2)]);
}

#[test]
fn directory_does_not_merge_repeated_registrations() {
    let mut c = Cluster::new();
    c.add(ProcessType::Leader, pid(1));
    c.add(ProcessType::Leader, pid(1));
    assert_eq!(c.leaders(), vec![pid(1), pid(1)]);
}

#[test]
fn id_set_behaves_like_a_set() {
    let mut s = IdSet::new();
    assert_eq!(s.len(), 0);
    assert!(s.insert(pid(1)));
    assert!(s.insert(pid(2)));
    assert!(!s.insert(pid(1)));
    assert_eq!(s.len(), 2);
    assert!(s.contains(pid(1)));
    assert!(!s.contains(pid(3)));
    assert!(!s.remove(pid(3)));
    assert!(s.remove(pid(1)));
    assert!(!s.remove(pid(1)));
    assert_eq!(s.len(), 1);
    assert!(!s.contains(pid(1)));
    assert!(s.contains(pid(2)));
    let t = IdSet::from_list(&vec![pid(5), pid(6), pid(5), pid(5)]);
    assert_eq!(t.len(), 2);
    assert!(t.contains(pid(5)) && t.contains(pid(6)));
}
