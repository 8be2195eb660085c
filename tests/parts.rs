use market_dht::addr::Address;
use market_dht::closest::insert_closest;
use market_dht::hex::{decode_hex, encode_hex};
use market_dht::connection::{ConnEvent, ConnectionRegistry, ListenerError};
use market_dht::engine::{next_phase_of, Phase, PhaseEvent};
use market_dht::id::{common_prefix_len, compare_distance, IdError, Order, PeerId, ID_BITS};
use market_dht::query::Lookup;
use market_dht::routing::{InsertOutcome, RoutingTable, K};
use market_dht::supplier::{merge_suppliers, SupplierInfo, SupplierRegistry};

fn id(bytes: [u8; 32]) -> PeerId {
    PeerId::from_bytes(&bytes).unwrap()
}

fn id_with(first: u8, second: u8) -> PeerId {
    let mut b = [0u8; 32];
    b[0] = first;
    b[1] = second;
    id(b)
}

fn addr(port: u16) -> Address {
    Address::new([127, 0, 0, 1], port)
}

#[test]
fn from_bytes_checks_the_length() {
    assert!(matches!(PeerId::from_bytes(&[1, 2, 3]), Err(IdError::InvalidLength)));
    assert!(matches!(PeerId::from_bytes(&[0u8; 33]), Err(IdError::InvalidLength)));
    let p = PeerId::from_bytes(&[7u8; 32]).unwrap();
    assert_eq!(p.to_bytes(), vec![7u8; 32]);
    assert_eq!(p.byte(31), 7);
}

#[test]
fn distance_is_symmetric_and_zero_on_self() {
    let a = id_with(0x12, 0x34);
    let b = id_with(0x56, 0x78);
    let t = id_with(0x50, 0x00);
    // b ^ t = 0x06.., a ^ t = 0x42..: b is closer
    assert_eq!(compare_distance(&b, &a, &t), Order::Less);
    assert_eq!(compare_distance(&a, &b, &t), Order::Greater);
    assert_eq!(compare_distance(&a, &a, &t), Order::Equal);
    // a is at distance zero from itself: nobody is closer to a than a
    assert_eq!(compare_distance(&a, &b, &a), Order::Less);
}

#[test]
fn common_prefix_lengths() {
    let zero = id([0u8; 32]);
    assert_eq!(common_prefix_len(&zero, &zero), ID_BITS);
    assert_eq!(common_prefix_len(&zero, &id_with(0x80, 0)), 0);
    assert_eq!(common_prefix_len(&zero, &id_with(0x01, 0)), 7);
    assert_eq!(common_prefix_len(&zero, &id_with(0x00, 0x20)), 10);
    let mut last = [0u8; 32];
    last[31] = 1;
    assert_eq!(common_prefix_len(&zero, &id(last)), 255);
}

#[test]
fn insert_outcomes() {
    let local = id([0u8; 32]);
    let mut t = RoutingTable::new(local);
    assert_eq!(t.insert(local, addr(1)), InsertOutcome::Rejected);
    let p = id_with(0x80, 1);
    assert_eq!(t.insert(p, addr(2)), InsertOutcome::Added);
    assert_eq!(t.insert(p, addr(3)), InsertOutcome::Updated);
    let r = t.closest_local(&p, 10);
    assert_eq!(r.len(), 1);
    t.remove(&p);
    t.remove(&p);
    assert_eq!(t.closest_local(&p, 10).len(), 0);
}

#[test]
fn full_bucket_keeps_reachable_peers_and_evicts_unreachable_ones() {
    let local = id([0u8; 32]);
    let mut t = RoutingTable::new(local);
    // all of these share no prefix bit with local: bucket 0
    for i in 0..K {
        assert_eq!(t.insert(id_with(0x80, i as u8), addr(i as u16)), InsertOutcome::Added);
    }
    let newcomer = id_with(0xff, 0xff);
    assert_eq!(t.insert(newcomer, addr(99)), InsertOutcome::Full);
    assert_eq!(t.closest_local(&newcomer, 100).len(), K);
    // the least recently seen entry becomes unreachable: it gives way
    let oldest = id_with(0x80, 0);
    t.set_reachable(&oldest, false);
    assert_eq!(t.insert(newcomer, addr(99)), InsertOutcome::Added);
    let all = t.closest_local(&newcomer, 100);
    assert_eq!(all.len(), K);
    assert!(all.iter().all(|p| !p.same_as(&oldest)));
    assert!(all[0].same_as(&newcomer));
}

#[test]
fn closest_local_is_sorted_and_bounded() {
    let local = id([0u8; 32]);
    let mut t = RoutingTable::new(local);
    for b in [0x01u8, 0x02, 0x04, 0x08, 0x10, 0x20, 0x40, 0x80] {
        t.insert(id_with(b, 0), addr(b as u16));
    }
    let target = id_with(0x05, 0);
    let r = t.closest_local(&target, 3);
    assert_eq!(r.len(), 3);
    assert!(r[0].same_as(&id_with(0x04, 0)));
    assert!(r[1].same_as(&id_with(0x01, 0)));
    assert!(r[2].same_as(&id_with(0x02, 0)));
    let again = t.closest_local(&target, 3);
    for i in 0..3 {
        assert!(r[i].same_as(&again[i]));
    }
    assert_eq!(t.closest_local(&target, 0).len(), 0);
    assert_eq!(t.closest_local(&target, 100).len(), 8);
}

#[test]
fn insert_closest_drops_the_farthest() {
    let t = id([0u8; 32]);
    let mut list: Vec<PeerId> = Vec::new();
    insert_closest(&mut list, id_with(9, 0), &t, 2);
    insert_closest(&mut list, id_with(3, 0), &t, 2);
    insert_closest(&mut list, id_with(3, 0), &t, 2);
    insert_closest(&mut list, id_with(5, 0), &t, 2);
    assert_eq!(list.len(), 2);
    assert!(list[0].same_as(&id_with(3, 0)));
    assert!(list[1].same_as(&id_with(5, 0)));
}

fn info(port: u16, name: &str) -> SupplierInfo {
    SupplierInfo::new([190, 32, 11, 23], port, 300, name.to_string())
}

#[test]
fn register_then_lookup_and_refresh() {
    let key = id([123u8; 32]);
    let other = id([1u8; 32]);
    let mut reg = SupplierRegistry::new();
    let k = reg.register(key, info(9001, "peer1"), 300, 1000);
    assert!(k.same_as(&key));
    let found = reg.suppliers_for(&key, 1000);
    assert_eq!(found.len(), 1);
    assert_eq!(found[0].port, 9001);
    assert_eq!(reg.suppliers_for(&other, 1000).len(), 0);
    // same supplier again: refreshed, not duplicated
    reg.register(key, info(9001, "renamed"), 600, 1200);
    let found = reg.suppliers_for(&key, 1400);
    assert_eq!(found.len(), 1);
    assert_eq!(found[0].username, "renamed".to_string());
    // another supplier of the same key
    reg.register(key, info(9002, "peer2"), 10, 1400);
    assert_eq!(reg.suppliers_for(&key, 1405).len(), 2);
    // expiry is lazy on read, and the sweep drops what ran out
    assert_eq!(reg.suppliers_for(&key, 1410).len(), 1);
    reg.evict_expired(1410);
    assert_eq!(reg.suppliers_for(&key, 1410).len(), 1);
    assert_eq!(reg.suppliers_for(&key, 1799).len(), 1);
    assert_eq!(reg.suppliers_for(&key, 1800).len(), 0);
}

#[test]
fn expiry_saturates() {
    let key = id([5u8; 32]);
    let mut reg = SupplierRegistry::new();
    reg.register(key, info(1, "a"), u64::MAX, 10);
    assert_eq!(reg.suppliers_for(&key, u64::MAX - 1).len(), 1);
    reg.register(key, info(2, "b"), 0, 10);
    assert_eq!(reg.suppliers_for(&key, 10).len(), 1);
}

#[test]
fn merge_keeps_each_supplier_once() {
    let mut acc = vec![info(1, "a")];
    let incoming = vec![info(2, "b"), info(1, "a2"), info(2, "b2"), info(3, "c")];
    merge_suppliers(&mut acc, &incoming);
    let ports: Vec<u16> = acc.iter().map(|s| s.port).collect();
    assert_eq!(ports, vec![1, 2, 3]);
    assert_eq!(acc[0].username, "a".to_string());
}

#[test]
fn connection_state_machine() {
    let mut reg = ConnectionRegistry::new();
    let p = id([9u8; 32]);
    let q = id([8u8; 32]);
    assert!(!reg.is_connected(&p));
    reg.record(p, addr(1), ConnEvent::Lost);
    assert!(!reg.is_connected(&p));
    reg.record(p, addr(1), ConnEvent::Dial);
    assert!(!reg.is_connected(&p));
    reg.record(p, addr(1), ConnEvent::Established);
    assert!(reg.is_connected(&p));
    reg.record(p, addr(1), ConnEvent::Dial);
    assert!(reg.is_connected(&p));
    reg.record(q, addr(2), ConnEvent::Established);
    assert_eq!(reg.connected_peers().len(), 2);
    reg.record(p, addr(1), ConnEvent::Lost);
    assert!(!reg.is_connected(&p));
    assert_eq!(reg.connected_peers().len(), 1);
    assert!(reg.address_of(&p).unwrap().same_as(&addr(1)));
    reg.disconnect_all();
    assert_eq!(reg.connected_peers().len(), 0);
}

#[test]
fn one_listener_only() {
    let mut reg = ConnectionRegistry::new();
    assert_eq!(reg.listeners().len(), 0);
    assert_eq!(reg.set_listener(addr(1)), Ok(()));
    assert_eq!(reg.set_listener(addr(2)), Err(ListenerError::AlreadyListening));
    let l = reg.listeners();
    assert_eq!(l.len(), 1);
    assert!(l[0].same_as(&addr(1)));
}

#[test]
fn lifecycle() {
    let mut p = Phase::Starting;
    p = next_phase_of(p, PhaseEvent::ListenerBound { has_boot_nodes: true });
    assert_eq!(p, Phase::Bootstrapping);
    p = next_phase_of(p, PhaseEvent::Drained);
    assert_eq!(p, Phase::Bootstrapping);
    p = next_phase_of(p, PhaseEvent::BootstrapDone);
    assert_eq!(p, Phase::Ready);
    p = next_phase_of(p, PhaseEvent::CommandsClosed);
    assert_eq!(p, Phase::ShuttingDown);
    p = next_phase_of(p, PhaseEvent::Drained);
    assert_eq!(p, Phase::Stopped);
    assert_eq!(next_phase_of(Phase::Starting, PhaseEvent::ListenerBound { has_boot_nodes: false }), Phase::Ready);
}

#[test]
fn lookup_rounds() {
    let local = id([0u8; 32]);
    let target = id_with(0x0f, 0);
    let seeds = vec![id_with(0x0e, 0), id_with(0x0c, 0), id_with(0x08, 0), id_with(0x10, 0)];
    let mut l = Lookup::new(target, local, 3, seeds[..3].to_vec());
    assert!(l.should_continue());
    let f = l.start_round();
    assert_eq!(f.len(), 3);
    assert!(f[0].same_as(&seeds[0]));
    // a late or unknown answer is ignored
    assert!(!l.on_response(&seeds[3], &vec![id_with(0x0f, 1)]));
    assert!(l.on_response(&f[0], &vec![id_with(0x0f, 1), local]));
    assert!(l.on_failure(&f[1]));
    assert!(!l.on_failure(&f[1]));
    assert!(l.on_response(&f[2], &vec![f[1]]));
    assert!(l.round_over());
    let r = l.result();
    assert_eq!(r.len(), 2);
    assert!(r[0].same_as(&id_with(0x0f, 1)));
    assert!(r.iter().all(|p| !p.same_as(&f[1]) && !p.same_as(&local)));
    assert!(l.should_continue());
    let f2 = l.start_round();
    assert_eq!(f2.len(), 1);
    assert!(f2[0].same_as(&id_with(0x0f, 1)));
    assert!(l.on_response(&f2[0], &vec![]));
    assert!(!l.should_continue());
    assert_eq!(l.start_round().len(), 0);
}

#[test]
fn hex_text() {
    assert_eq!(encode_hex(&[0x00, 0xab, 0x7f]), b"00ab7f".to_vec());
    assert_eq!(decode_hex(b"00aB7F"), Some(vec![0x00, 0xab, 0x7f]));
    assert_eq!(decode_hex(b"abc"), None);
    assert_eq!(decode_hex(b"zz"), None);
    assert_eq!(decode_hex(b""), Some(vec![]));
    let p = id_with(0xde, 0xad);
    let text = p.to_hex();
    assert_eq!(text.len(), 64);
    assert_eq!(&text[..4], b"dead");
    assert!(PeerId::from_hex(&text).unwrap().same_as(&p));
    assert!(matches!(PeerId::from_hex(b"0g"), Err(IdError::InvalidHex)));
    assert!(matches!(PeerId::from_hex(b"00ff"), Err(IdError::InvalidLength)));
}
