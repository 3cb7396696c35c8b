use laterbase::event::{Id, Transaction};
use laterbase::message::Message;
use laterbase::replica::{mem, merge, Envelope, Replica, ReplicaError};
use laterbase::storage::Simulated;

fn ev(n: u128, v: &str) -> (Id, Vec<u8>) {
    (Id::from_u128(n), v.as_bytes().to_vec())
}

fn addr(b: u8) -> Vec<u8> {
    vec![b; 16]
}

fn replica(b: u8, events: &[(Id, Vec<u8>)]) -> Replica<Simulated> {
    let mut r = Replica::new(addr(b));
    let reply = r.recv(Message::StoreEvents { from: None, events: events.to_vec() });
    assert_eq!(reply, Ok(None));
    r
}

fn all(r: &Replica<Simulated>) -> Vec<(Id, Vec<u8>)> {
    r.database().read_events(Transaction(0)).unwrap().0
}

fn sorted(r: &Replica<Simulated>) -> Vec<(Id, Vec<u8>)> {
    let mut v = all(r);
    v.sort();
    v
}

fn clock(r: &Replica<Simulated>, peer: &Replica<Simulated>) -> usize {
    r.database().transaction_logical_clock(peer.addr()).0
}

#[test]
fn local_echo() {
    let r = replica(1, &[ev(1, "a"), ev(2, "bb")]);
    let (evs, hw) = r.database().read_events(Transaction(0)).unwrap();
    assert_eq!(evs, vec![ev(1, "a"), ev(2, "bb")]);
    assert_eq!(hw, Transaction(2));
    let (evs, hw) = r.database().read_events(Transaction(2)).unwrap();
    assert!(evs.is_empty());
    assert_eq!(hw, Transaction(2));
}

fn one_way(r1: &mut Replica<Simulated>, r2: &mut Replica<Simulated>) -> Message {
    let ask = r2.recv(Message::Sync(addr(1))).unwrap().unwrap();
    assert_eq!(
        ask,
        Envelope {
            to: addr(1),
            msg: Message::SendEvents { since: Transaction(0), dest: addr(2) },
        }
    );
    let answer = r1.recv(ask.msg).unwrap().unwrap();
    assert_eq!(answer.to, addr(2));
    assert_eq!(
        answer.msg,
        Message::StoreEvents {
            from: Some((addr(1), Transaction(2))),
            events: vec![ev(1, "k1"), ev(2, "k2")],
        }
    );
    assert_eq!(r2.recv(answer.msg.clone()), Ok(None));
    answer.msg
}

#[test]
fn one_way_sync() {
    let mut r1 = replica(1, &[ev(1, "k1"), ev(2, "k2")]);
    let mut r2 = replica(2, &[]);
    one_way(&mut r1, &mut r2);
    assert_eq!(all(&r2), vec![ev(1, "k1"), ev(2, "k2")]);
    assert_eq!(clock(&r2, &r1), 2);
}

#[test]
fn duplicate_delivery() {
    let mut r1 = replica(1, &[ev(1, "k1"), ev(2, "k2")]);
    let mut r2 = replica(2, &[]);
    let store = one_way(&mut r1, &mut r2);
    assert_eq!(r2.recv(store.clone()), Ok(None));
    assert_eq!(r2.recv(store), Ok(None));
    assert_eq!(all(&r2), vec![ev(1, "k1"), ev(2, "k2")]);
    assert_eq!(r2.database().info().n_events, 2);
    assert_eq!(clock(&r2, &r1), 2);
}

#[test]
fn cross_sync() {
    let mut r1 = replica(1, &[ev(1, "k1")]);
    let mut r2 = replica(2, &[ev(2, "k2")]);
    merge(&mut r1, &mut r2);
    // r1 answered with one event, before it had heard of k2.
    assert_eq!(clock(&r2, &r1), 1);
    assert_eq!(clock(&r1, &r2), 2);
    merge(&mut r1, &mut r2);
    assert_eq!(sorted(&r1), vec![ev(1, "k1"), ev(2, "k2")]);
    assert_eq!(sorted(&r2), vec![ev(1, "k1"), ev(2, "k2")]);
    assert_eq!(clock(&r1, &r2), 2);
    assert_eq!(clock(&r2, &r1), 2);
}

#[test]
fn three_way_any_order() {
    let make = || (replica(1, &[ev(1, "a")]), replica(2, &[ev(2, "b")]), replica(3, &[ev(3, "c")]));
    let expect = vec![ev(1, "a"), ev(2, "b"), ev(3, "c")];

    let (mut a, mut b, mut c) = make();
    merge(&mut a, &mut b);
    merge(&mut b, &mut c);
    merge(&mut a, &mut b);
    for r in [&a, &b, &c] {
        assert_eq!(sorted(r), expect);
    }

    let (mut a, mut b, mut c) = make();
    merge(&mut c, &mut a);
    merge(&mut b, &mut a);
    merge(&mut c, &mut b);
    for r in [&a, &b, &c] {
        assert_eq!(sorted(r), expect);
    }
}

#[test]
fn stale_since_resends_everything() {
    let mut r1 = replica(1, &[ev(1, "k1"), ev(2, "k2")]);
    let reply = r1
        .recv(Message::SendEvents { since: Transaction(99), dest: addr(2) })
        .unwrap()
        .unwrap();
    assert_eq!(
        reply,
        Envelope {
            to: addr(2),
            msg: Message::StoreEvents {
                from: Some((addr(1), Transaction(2))),
                events: vec![ev(1, "k1"), ev(2, "k2")],
            },
        }
    );
    assert_eq!(all(&r1), vec![ev(1, "k1"), ev(2, "k2")]);
}

#[test]
fn send_events_from_offset() {
    let mut r1 = replica(1, &[ev(1, "k1"), ev(2, "k2")]);
    let reply = r1
        .recv(Message::SendEvents { since: Transaction(1), dest: addr(2) })
        .unwrap()
        .unwrap();
    assert_eq!(
        reply.msg,
        Message::StoreEvents { from: Some((addr(1), Transaction(2))), events: vec![ev(2, "k2")] }
    );
}

#[test]
fn store_from_self_is_refused() {
    let mut r1 = replica(1, &[ev(1, "k1")]);
    let reply = r1.recv(Message::StoreEvents {
        from: Some((addr(1), Transaction(5))),
        events: vec![ev(2, "k2")],
    });
    assert_eq!(reply, Err(ReplicaError::SelfLoop));
    assert_eq!(all(&r1), vec![ev(1, "k1")]);
    assert_eq!(clock(&r1, &r1), 0);
}

#[test]
fn merge_twice_changes_no_events() {
    let mut a = replica(1, &[ev(1, "a"), ev(4, "d")]);
    let mut b = replica(2, &[ev(2, "b"), ev(4, "d")]);
    merge(&mut a, &mut b);
    let (once_a, once_b) = (all(&a), all(&b));
    merge(&mut a, &mut b);
    assert_eq!(all(&a), once_a);
    assert_eq!(all(&b), once_b);
}

#[test]
fn merge_commutes() {
    let mut a1 = replica(1, &[ev(1, "a"), ev(3, "c")]);
    let mut b1 = replica(2, &[ev(2, "b")]);
    let mut a2 = replica(1, &[ev(1, "a"), ev(3, "c")]);
    let mut b2 = replica(2, &[ev(2, "b")]);
    merge(&mut a1, &mut b1);
    merge(&mut b2, &mut a2);
    assert_eq!(sorted(&a1), sorted(&a2));
    assert_eq!(sorted(&b1), sorted(&b2));
    assert_eq!(sorted(&a1), vec![ev(1, "a"), ev(2, "b"), ev(3, "c")]);
}

#[test]
fn merge_associates() {
    let make = || (replica(1, &[ev(1, "a")]), replica(2, &[ev(2, "b")]), replica(3, &[ev(3, "c")]));
    let (mut a, mut b, mut c) = make();
    merge(&mut a, &mut b);
    merge(&mut a, &mut c);
    let left = sorted(&a);
    let (mut a, mut b, mut c) = make();
    merge(&mut b, &mut c);
    merge(&mut a, &mut b);
    assert_eq!(sorted(&a), left);
    assert_eq!(left, vec![ev(1, "a"), ev(2, "b"), ev(3, "c")]);
}

#[test]
fn fresh_replica_has_random_address() {
    let a = mem();
    let b = mem();
    assert_eq!(a.addr().len(), 16);
    assert_ne!(a.addr(), b.addr());
    assert_eq!(a.database().info().n_events, 0);
}

#[test]
fn replica_add_local() {
    let mut r = Replica::new(addr(7));
    let ids = r.add_local(&[b"p".to_vec(), b"q".to_vec()]);
    assert_eq!(all(&r), vec![(ids[0], b"p".to_vec()), (ids[1], b"q".to_vec())]);
}

#[test]
fn event_equivalence_ignores_order_and_clocks() {
    let a = replica(1, &[ev(1, "a"), ev(2, "b")]);
    let mut b = replica(2, &[ev(2, "b"), ev(1, "a")]);
    assert!(a.database().event_equivalent(b.database()));
    b.recv(Message::StoreEvents { from: Some((addr(3), Transaction(1))), events: vec![] }).unwrap();
    assert!(a.database().event_equivalent(b.database()));
    let c = replica(3, &[ev(1, "a"), ev(2, "B")]);
    assert!(!a.database().event_equivalent(c.database()));
    let d = replica(4, &[ev(1, "a")]);
    assert!(!a.database().event_equivalent(d.database()));
    let e = replica(5, &[ev(1, "a"), ev(3, "b")]);
    assert!(!a.database().event_equivalent(e.database()));
}

#[test]
fn merged_replicas_are_event_equivalent() {
    let mut a = replica(1, &[ev(1, "a"), ev(5, "e")]);
    let mut b = replica(2, &[ev(2, "b"), ev(5, "e")]);
    assert!(!a.database().event_equivalent(b.database()));
    merge(&mut a, &mut b);
    assert!(a.database().event_equivalent(b.database()));
}
