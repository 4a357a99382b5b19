use cmesh::coord::{
    count_in_states, generate_plan, process_heartbeat, quorum_reached, start_delay_secs,
    upsert_peer,
};
use cmesh::types::{GraphType, Heartbeat, HeartbeatsDoc, Peer, PeerState};

fn peer(id: &str, state: PeerState) -> Peer {
    Peer {
        peer_id: id.to_string(),
        peer_ip_addr: "10.0.0.1".to_string(),
        peer_port: 4000,
        state,
    }
}

fn peers_with_states(states: &[PeerState]) -> Vec<Peer> {
    states
        .iter()
        .enumerate()
        .map(|(i, s)| peer(&format!("peer{}_{:x}", i, i), *s))
        .collect()
}

#[test]
fn test_quorum_predicate() {
    // min_peers = 3 with states [Init, Init, Ready]: not enough peers in
    // Init alone, but enough in Init-or-Ready.
    let peers = peers_with_states(&[PeerState::Init, PeerState::Init, PeerState::Ready]);
    assert!(!quorum_reached(&peers, &vec![PeerState::Init], 3));
    assert!(quorum_reached(&peers, &vec![PeerState::Init, PeerState::Ready], 3));
    assert_eq!(count_in_states(&peers, &vec![PeerState::Init]), 2);
    assert_eq!(count_in_states(&peers, &vec![PeerState::Init, PeerState::Ready]), 3);
}

#[test]
fn test_start_delay_formula() {
    let at = |n: usize| {
        let peers = peers_with_states(&vec![PeerState::Init; n]);
        start_delay_secs(&peers)
    };
    assert_eq!(at(40), 10);
    assert_eq!(at(41), 21);
    assert_eq!(at(100), 35);
}

#[test]
fn test_heartbeat_replaces_state() {
    // A later heartbeat from the same sender replaces the entry, so the
    // freshest state wins; a new sender is appended.
    let mut peers: Vec<Peer> = Vec::new();
    upsert_peer(&mut peers, peer("a_1", PeerState::Init));
    let doc = HeartbeatsDoc {
        beats: vec![
            Heartbeat { sender: peer("a_1", PeerState::Ready), sent_at_msec: 7 },
            Heartbeat { sender: peer("b_2", PeerState::Init), sent_at_msec: 8 },
        ],
    };
    process_heartbeat(&mut peers, &doc);
    assert_eq!(peers.len(), 2);
    assert_eq!(peers[0].peer_id, "a_1");
    assert_eq!(peers[0].state, PeerState::Ready);
    assert_eq!(peers[1].peer_id, "b_2");
    assert_eq!(peers[1].state, PeerState::Init);
}

#[test]
fn test_two_peer_complete_plan() {
    // Two peers, complete graph: the plan lists both peers, and the
    // union of their neighbor sets is both ids minus self-loops.
    let peers = vec![peer("peerA_1", PeerState::Init), peer("peerB_2", PeerState::Init)];
    let plan = generate_plan(&peers, 5, GraphType::Complete, vec![9], 10, 500);
    assert_eq!(plan.start_time, 0);
    assert_eq!(plan.test_duration_sec, 5);
    assert_eq!(plan.min_msg_delay_msec, 10);
    assert_eq!(plan.max_msg_delay_msec, 500);
    assert_eq!(plan.report_collection_name, "cmesh-report");
    assert_eq!(plan.peer_collection_name, "cmesh-peers");
    assert_eq!(plan.peer_doc_id, vec![9]);
    assert_eq!(plan.peers.len(), 2);
    assert_eq!(plan.connections.nmap.len(), 2);
    let mut union: Vec<String> = Vec::new();
    for e in plan.connections.nmap.iter() {
        for n in e.neighbors.iter() {
            assert!(*n != e.id, "no self-loops");
            union.push(n.clone());
        }
    }
    assert_eq!(union.len(), 1, "exactly one directed edge between the pair");
    assert!(union[0] == "peerA_1" || union[0] == "peerB_2");
}

#[test]
fn test_spanning_tree_plan_degree_bound() {
    let peers: Vec<Peer> = (0..10).map(|i| peer(&i.to_string(), PeerState::Init)).collect();
    let plan = generate_plan(&peers, 60, GraphType::SpanningTree, vec![1], 10, 500);
    assert_eq!(plan.connections.nmap.len(), 10);
    for e in plan.connections.nmap.iter() {
        assert!(e.neighbors.len() <= 3);
    }
}

#[test]
fn test_la_model_plan_keeps_everyone_connected() {
    let peers: Vec<Peer> = (0..8).map(|i| peer(&format!("p{}_{}", i, i), PeerState::Init)).collect();
    let plan = generate_plan(&peers, 60, GraphType::LAModel, vec![1], 10, 500);
    assert_eq!(plan.connections.nmap.len(), 8);
    for p in peers.iter() {
        assert!(!plan.connections.undirected_links(&p.peer_id).unwrap().is_empty());
    }
}
