use relay::connections::Conn;
use relay::connections::Connections;

fn ids_of(conns: &Connections) -> Vec<u32> {
    let mut ids = Vec::new();
    for e in conns.entries.iter() {
        ids.push(e.id);
    }
    ids
}

#[test]
fn fresh_connection_is_idle_and_empty() {
    let c = Conn::new();
    assert!(!c.held);
    assert!(c.delivered.is_empty());
}

#[test]
fn write_delivers_full_payload_when_idle() {
    let mut c = Conn::new();
    let payload = vec![1u8, 2, 3];
    let n = c.write(&payload);
    assert_eq!(n, 3);
    assert_eq!(c.delivered, vec![vec![1u8, 2, 3]]);
}

#[test]
fn write_skips_and_reports_zero_when_held() {
    let mut c = Conn {
        held: true,
        delivered: Vec::new(),
    };
    let payload = vec![1u8, 2, 3];
    let n = c.write(&payload);
    assert_eq!(n, 0);
    assert!(c.delivered.is_empty());
}

#[test]
fn store_assigns_unique_monotonic_ids() {
    let mut conns = Connections::new();
    let a = conns.store(Conn::new());
    let b = conns.store(Conn::new());
    let c = conns.store(Conn::new());
    assert_eq!((a, b, c), (1, 2, 3));
    // An id freed by removal is never handed out again.
    conns.remove(b);
    let d = conns.store(Conn::new());
    assert_eq!(d, 4);
    assert_eq!(conns.counter, 4);
}

#[test]
fn membership_is_registered_minus_unregistered() {
    let mut conns = Connections::new();
    let a = conns.store(Conn::new());
    let b = conns.store(Conn::new());
    let c = conns.store(Conn::new());
    conns.remove(a);
    let d = conns.store(Conn::new());
    conns.remove(c);
    assert_eq!(ids_of(&conns), vec![b, d]);
}

#[test]
fn remove_is_idempotent_and_tolerates_unknown_ids() {
    let mut conns = Connections::new();
    let a = conns.store(Conn::new());
    let b = conns.store(Conn::new());
    conns.remove(a);
    let after_first = ids_of(&conns);
    conns.remove(a);
    assert_eq!(ids_of(&conns), after_first);
    // An id never registered is a no-op as well.
    conns.remove(999);
    assert_eq!(ids_of(&conns), vec![b]);
    assert_eq!(conns.counter, 2);
}

#[test]
fn broadcast_reaches_every_idle_connection() {
    let mut conns = Connections::new();
    for _ in 0..3 {
        conns.store(Conn::new());
    }
    let payload = vec![9u8, 8, 7, 6];
    let log = conns.broadcast(&payload);
    assert_eq!(log.len(), 3);
    for record in log.iter() {
        assert_eq!(record.bytes, 4);
    }
    for e in conns.entries.iter() {
        assert_eq!(e.conn.delivered, vec![payload.clone()]);
    }
}

#[test]
fn broadcast_skips_held_endpoint_and_reaches_the_rest() {
    let mut conns = Connections::new();
    let a = conns.store(Conn::new());
    let b = conns.store(Conn {
        held: true,
        delivered: Vec::new(),
    });
    let c = conns.store(Conn::new());
    let payload = vec![0x55u8];
    let log = conns.broadcast(&payload);
    assert_eq!(log.len(), 3);
    assert_eq!((log[0].id, log[0].bytes), (a, 1));
    assert_eq!((log[1].id, log[1].bytes), (b, 0));
    assert_eq!((log[2].id, log[2].bytes), (c, 1));
    assert_eq!(conns.entries[0].conn.delivered, vec![payload.clone()]);
    assert!(conns.entries[1].conn.delivered.is_empty());
    assert_eq!(conns.entries[2].conn.delivered, vec![payload.clone()]);
}

#[test]
fn broadcast_on_empty_registry_is_empty() {
    let mut conns = Connections::new();
    let log = conns.broadcast(&vec![1u8]);
    assert!(log.is_empty());
}

#[test]
fn relay_scenario_three_peers_then_one_leaves() {
    let mut conns = Connections::new();
    let ids = [
        conns.store(Conn::new()),
        conns.store(Conn::new()),
        conns.store(Conn::new()),
    ];
    assert_eq!(ids, [1, 2, 3]);

    let payload = vec![0xAAu8, 0xBB];
    let log = conns.broadcast(&payload);
    assert_eq!(log.len(), 3);
    for (record, id) in log.iter().zip(ids.iter()) {
        assert_eq!(record.id, *id);
        assert_eq!(record.bytes, 2);
    }

    conns.remove(2);
    let log = conns.broadcast(&payload);
    assert_eq!(log.len(), 2);
    assert_eq!((log[0].id, log[0].bytes), (1, 2));
    assert_eq!((log[1].id, log[1].bytes), (3, 2));
    assert_eq!(ids_of(&conns), vec![1, 3]);
    for e in conns.entries.iter() {
        assert_eq!(e.conn.delivered, vec![payload.clone(), payload.clone()]);
    }
}
