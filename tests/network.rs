use market_dht::addr::Address;
use market_dht::engine::{BootNode, Command, DhtError, Node, Reaction, Response, DEFAULT_SUPPLIER_TTL};
use market_dht::id::PeerId;
use market_dht::query::Lookup;
use market_dht::supplier::SupplierInfo;

fn pid(first: u8, rest: u8) -> PeerId {
    let mut b = [rest; 32];
    b[0] = first;
    PeerId::from_bytes(&b).unwrap()
}

fn spawn(first: u8, port: u16) -> (Node, Address) {
    let addr = Address::new([127, 0, 0, 1], port);
    (Node::new(pid(first, first), addr, false), addr)
}

fn connect(nodes: &mut Vec<(Node, Address)>, a: usize, b: usize) {
    let (ida, addra) = (nodes[a].0.id(), nodes[a].1);
    let (idb, addrb) = (nodes[b].0.id(), nodes[b].1);
    nodes[a].0.on_dial(idb, addrb);
    nodes[a].0.on_connected(idb, addrb);
    nodes[b].0.on_connected(ida, addra);
}

/// Runs a lookup to its end, answering for each asked peer from the node with
/// that identifier; a peer with no running node fails.
fn run_lookup(nodes: &Vec<(Node, Address)>, mut lookup: Lookup) -> Lookup {
    loop {
        if !lookup.should_continue() {
            break;
        }
        let frontier = lookup.start_round();
        if frontier.is_empty() {
            break;
        }
        for p in frontier.iter() {
            let target = lookup.target().to_bytes();
            match nodes.iter().find(|(n, _)| n.id().same_as(p)) {
                Some((n, _)) => {
                    let peers = n.answer_find_closest(&target).unwrap();
                    lookup.on_response(p, &peers);
                }
                None => {
                    lookup.on_failure(p);
                }
            }
        }
        assert!(lookup.round_over());
    }
    lookup
}

fn connected_count(node: &mut Node) -> usize {
    match node.handle(Command::GetConnectedPeers, 0) {
        Reaction::Reply(Ok(Response::ConnectedPeers { peers })) => peers.len(),
        _ => panic!("Didn't get the correct response!"),
    }
}

#[test]
fn test_bootstrap_with_multiple_nodes() {
    let mut nodes = vec![spawn(1, 1233), spawn(2, 1234), spawn(3, 1235), spawn(4, 1236)];
    connect(&mut nodes, 2, 0);
    connect(&mut nodes, 2, 1);
    connect(&mut nodes, 3, 0);
    connect(&mut nodes, 3, 1);
    // peer4 learns about peer3 through its bootstrap lookup and dials it
    let lookup = run_lookup(&nodes, nodes[3].0.begin_bootstrap_lookup());
    assert!(lookup.target().same_as(&nodes[3].0.id()));
    for p in lookup.result() {
        if !nodes[3].0.is_connected_to(&p) {
            let idx = nodes.iter().position(|(n, _)| n.id().same_as(&p)).unwrap();
            connect(&mut nodes, 3, idx);
        }
    }
    assert_eq!(3, connected_count(&mut nodes[3].0));
}

#[test]
fn test_get_closest_local_peers() {
    let mut nodes = vec![spawn(1, 1236), spawn(2, 1237), spawn(3, 1238), spawn(4, 1239)];
    connect(&mut nodes, 1, 0);
    connect(&mut nodes, 2, 0);
    connect(&mut nodes, 3, 0);
    let target = nodes[2].0.id().to_bytes();
    match nodes[0].0.handle(Command::GetClosestLocalPeers { target }, 0) {
        Reaction::Reply(Ok(Response::ClosestLocalPeers { peers })) => {
            assert_eq!(3, peers.len());
            assert!(peers[0].same_as(&nodes[2].0.id()));
        }
        _ => panic!("Didn't get the correct response!"),
    }
}

#[test]
fn test_get_closest_peers() {
    let mut nodes = vec![spawn(1, 1240), spawn(2, 1241), spawn(3, 1242), spawn(4, 1243)];
    connect(&mut nodes, 1, 0);
    connect(&mut nodes, 2, 0);
    connect(&mut nodes, 3, 0);
    let target = nodes[3].0.id().to_bytes();
    let reaction = nodes[3].0.handle(Command::GetClosestPeers { target: target.clone() }, 0);
    let lookup = match reaction {
        Reaction::FindClosest(l) => run_lookup(&nodes, l),
        _ => panic!("Didn't get the correct response!"),
    };
    match Node::closest_peers_response(&lookup) {
        Response::ClosestPeers { key, peers } => {
            assert_eq!(key, target);
            assert_eq!(3, peers.len());
        }
        _ => panic!("Didn't get the correct response!"),
    }
}

fn register(node: &mut Node, nodes_for_replication: &mut Vec<(Node, Address)>, port: u16, name: &str) -> Vec<u8> {
    let sha_hash = [123u8; 32];
    let cmd = Command::RegisterFile {
        key: sha_hash.to_vec(),
        ip: [190, 32, 11, 23],
        port,
        price: 300,
        username: name.to_string(),
        ttl: DEFAULT_SUPPLIER_TTL,
    };
    match node.handle(cmd, 1000) {
        Reaction::Replicate { key, info, ttl, lookup } => {
            let lookup = run_lookup(nodes_for_replication, lookup);
            for p in lookup.result() {
                if let Some((n, _)) = nodes_for_replication.iter_mut().find(|(n, _)| n.id().same_as(&p)) {
                    n.accept_store(&key.to_bytes(), info.clone(), ttl, 1000).unwrap();
                }
            }
            key.to_bytes()
        }
        _ => panic!("Didn't get the correct response!"),
    }
}

fn check_holders(nodes: &mut Vec<(Node, Address)>, who: usize, key: &[u8]) -> Vec<SupplierInfo> {
    let reaction = nodes[who].0.handle(Command::CheckHolders { key: key.to_vec() }, 2000);
    match reaction {
        Reaction::FindHolders { local, lookup } => {
            let lookup = run_lookup(nodes, lookup);
            let mut search = Node::supplier_search(local, &lookup);
            for p in lookup.result() {
                match nodes.iter().find(|(n, _)| n.id().same_as(&p)) {
                    Some((n, _)) => {
                        let found = n.answer_get_suppliers(key, 2000).unwrap();
                        search.on_reply(&p, &found);
                    }
                    None => {
                        search.on_failure(&p);
                    }
                }
            }
            assert!(search.is_done());
            search.into_found()
        }
        other => panic!("Unexpected response: {:?}", other),
    }
}

#[test]
fn test_register_file() {
    let (mut peer1, _) = spawn(1, 1236);
    let mut others: Vec<(Node, Address)> = Vec::new();
    let sha_hash = [123u8; 32];
    let key = register(&mut peer1, &mut others, 9001, "peer1");
    assert_eq!(key, sha_hash.to_vec());
}

#[test]
fn test_check_holders() {
    let mut nodes = vec![spawn(1, 1238), spawn(2, 1239), spawn(3, 1240)];
    connect(&mut nodes, 1, 0);
    connect(&mut nodes, 2, 0);
    let (mut peer2, a2) = nodes.remove(1);
    register(&mut peer2, &mut nodes, 9002, "peer2");
    nodes.insert(1, (peer2, a2));
    let (mut peer3, a3) = nodes.remove(2);
    register(&mut peer3, &mut nodes, 9003, "peer3");
    nodes.insert(2, (peer3, a3));
    let found = check_holders(&mut nodes, 0, &[123u8; 32]);
    assert_eq!(2, found.len());
}

#[test]
fn check_holders_sees_the_registering_node() {
    let mut nodes = vec![spawn(1, 1250), spawn(2, 1251)];
    connect(&mut nodes, 1, 0);
    let (mut a, aa) = nodes.remove(0);
    register(&mut a, &mut nodes, 9001, "peer1");
    nodes.insert(0, (a, aa));
    let found = check_holders(&mut nodes, 1, &[123u8; 32]);
    assert_eq!(1, found.len());
    assert_eq!(found[0].ip, [190, 32, 11, 23]);
    assert_eq!(found[0].port, 9001);
    assert_eq!(found[0].price, 300);
    assert_eq!(found[0].username, "peer1".to_string());
}

#[test]
fn test_get_connected_peers() {
    let mut nodes = vec![spawn(1, 1233), spawn(2, 1234)];
    connect(&mut nodes, 1, 0);
    assert_eq!(1, connected_count(&mut nodes[0].0));
    assert_eq!(1, connected_count(&mut nodes[1].0));
}

#[test]
fn test_get_all_listeners() {
    let (mut peer1, addr) = spawn(1, 1235);
    for _ in 0..3 {
        match peer1.handle(Command::GetAllListeners, 0) {
            Reaction::Reply(Ok(Response::AllListeners { listeners })) => {
                assert_eq!(1, listeners.len(), "Listeners amount not correct");
                assert!(listeners[0].same_as(&addr));
            }
            _ => panic!("Listeners amount not correct"),
        }
    }
}

#[test]
fn test_is_connected_to() {
    let mut nodes = vec![spawn(1, 1236), spawn(2, 1237)];
    connect(&mut nodes, 1, 0);
    let id2 = nodes[1].0.id();
    match nodes[0].0.handle(Command::IsConnectedTo { peer: id2 }, 0) {
        Reaction::Reply(Ok(Response::IsConnectedTo { connected })) => assert!(connected, "Isn't connected to peer 2"),
        _ => panic!("Isn't connected to peer 2"),
    }
}

#[test]
fn test_drop_connection() {
    let mut nodes = vec![spawn(1, 1238), spawn(2, 1239)];
    connect(&mut nodes, 1, 0);
    let (id1, addr1) = (nodes[0].0.id(), nodes[0].1);
    // peer1 goes away: its connections close
    nodes[0].0.advance(market_dht::engine::PhaseEvent::CommandsClosed);
    nodes[1].0.on_disconnected(id1, addr1);
    assert!(!nodes[1].0.is_connected_to(&id1), "Peer2 disconnection drop not detected");
    assert_eq!(0, connected_count(&mut nodes[0].0));
}

#[test]
fn malformed_keys_are_invalid_arguments() {
    let (mut n, _) = spawn(1, 1300);
    match n.handle(Command::GetClosestLocalPeers { target: vec![1, 2, 3] }, 0) {
        Reaction::Reply(Err(DhtError::InvalidArgument)) => {}
        _ => panic!("expected an invalid argument"),
    }
    match n.handle(Command::GetClosestPeers { target: vec![] }, 0) {
        Reaction::Reply(Err(DhtError::InvalidArgument)) => {}
        _ => panic!("expected an invalid argument"),
    }
    match n.handle(Command::CheckHolders { key: vec![0; 31] }, 0) {
        Reaction::Reply(Err(DhtError::InvalidArgument)) => {}
        _ => panic!("expected an invalid argument"),
    }
    let cmd = Command::RegisterFile { key: vec![0; 33], ip: [1, 2, 3, 4], port: 1, price: 1, username: "x".to_string(), ttl: 5 };
    match n.handle(cmd, 0) {
        Reaction::Reply(Err(DhtError::InvalidArgument)) => {}
        _ => panic!("expected an invalid argument"),
    }
    assert!(matches!(n.handle(Command::Quit, 0), Reaction::Stop));
}

#[test]
fn lookup_with_no_peers_returns_local_suppliers_only() {
    let (mut n, _) = spawn(1, 1301);
    let mut none: Vec<(Node, Address)> = Vec::new();
    register(&mut n, &mut none, 9001, "peer1");
    register(&mut n, &mut none, 9001, "again");
    let mut nodes = vec![(n, Address::new([127, 0, 0, 1], 1301))];
    let found = check_holders(&mut nodes, 0, &[123u8; 32]);
    assert_eq!(1, found.len());
    assert_eq!(found[0].username, "again".to_string());
}

#[test]
fn bootstrap_dials_skip_self_and_connected_peers() {
    let mut nodes = vec![spawn(1, 1400), spawn(2, 1401), spawn(3, 1402)];
    connect(&mut nodes, 0, 1);
    let boots = vec![
        BootNode { peer: nodes[0].0.id(), address: nodes[0].1 },
        BootNode { peer: nodes[1].0.id(), address: nodes[1].1 },
        BootNode { peer: nodes[2].0.id(), address: nodes[2].1 },
    ];
    let dials = nodes[0].0.bootstrap_dials(&boots);
    assert_eq!(dials.len(), 1);
    assert!(dials[0].peer.same_as(&nodes[2].0.id()));
}
