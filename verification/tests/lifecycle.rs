use cmesh::graph::complete_graph;
use cmesh::lifecycle::{
    dial_targets, heartbeat_send_payload, make_report, start_wait_msec, HeartbeatCtx, PeerContext,
};
use cmesh::types::{
    CoordinatorInfo, ExecutionPlan, Heartbeat, LatencyStats, Peer, PeerState,
};

fn peer(id: &str, ip: &str, port: u16) -> Peer {
    Peer {
        peer_id: id.to_string(),
        peer_ip_addr: ip.to_string(),
        peer_port: port,
        state: PeerState::Init,
    }
}

#[test]
fn test_new_peer_context() {
    let pctx = PeerContext::new("peerA", "192.168.1.5", 4001);
    assert!(pctx.id.starts_with("peerA_"));
    assert_eq!(pctx.local_ip, "192.168.1.5");
    assert_eq!(pctx.local_port, 4001);
    assert_eq!(pctx.state, PeerState::Init);
    assert!(pctx.coord_info.is_none());
    assert!(pctx.get_plan().is_none());
}

#[test]
fn test_state_transitions_forward() {
    let mut pctx = PeerContext::new("peerA", "10.0.0.2", 0);
    pctx.state_transition(Some(PeerState::Init), PeerState::Ready);
    assert_eq!(pctx.state, PeerState::Ready);
    pctx.state_transition(Some(PeerState::Ready), PeerState::Running);
    pctx.state_transition(Some(PeerState::Running), PeerState::Reporting);
    pctx.state_transition(Some(PeerState::Reporting), PeerState::Shutdown);
    assert_eq!(pctx.state, PeerState::Shutdown);
}

#[test]
fn test_get_plan_roundtrip() {
    let mut pctx = PeerContext::new("peerA", "10.0.0.2", 0);
    let plan = ExecutionPlan {
        start_time: 123,
        test_duration_sec: 5,
        report_collection_name: "cmesh-report".to_string(),
        peer_collection_name: "cmesh-peers".to_string(),
        peer_doc_id: vec![1],
        min_msg_delay_msec: 10,
        max_msg_delay_msec: 500,
        peers: Vec::new(),
        connections: cmesh::graph::PeerGraph::new(),
    };
    pctx.coord_info = Some(CoordinatorInfo {
        heartbeat_collection_name: "cmesh-heartbeat".to_string(),
        heartbeat_interval_sec: 5,
        execution_plan: Some(plan),
    });
    let got = pctx.get_plan().unwrap();
    assert_eq!(got.start_time, 123);
    assert_eq!(got.test_duration_sec, 5);
    assert_eq!(got.peer_doc_id, vec![1]);
}

#[test]
fn test_heartbeat_payload() {
    let sender = peer("peerA_1", "10.0.0.2", 4100);
    let record = Heartbeat { sender, sent_at_msec: 0 };
    let mut hctx = HeartbeatCtx::new("peerA_1".to_string(), record);
    let (path, beat) = heartbeat_send_payload(&mut hctx, PeerState::Running);
    assert_eq!(path, "beats.peerA_1");
    assert_eq!(beat.sender.peer_id, "peerA_1");
    assert_eq!(beat.sender.state, PeerState::Running);
}

#[test]
fn test_start_wait() {
    assert_eq!(start_wait_msec(1000, 1500), 500);
    assert_eq!(start_wait_msec(1500, 1500), 0);
    assert_eq!(start_wait_msec(2000, 1500), 0);
}

#[test]
fn test_dial_targets() {
    let a = peer("a_1", "10.0.0.1", 4001);
    let b = peer("b_2", "10.0.0.2", 4002);
    let c = peer("c_3", "10.0.0.3", 4003);
    let ids = vec!["a_1".to_string(), "b_2".to_string(), "c_3".to_string()];
    let connections = complete_graph(&ids);
    let plan = ExecutionPlan {
        start_time: 0,
        test_duration_sec: 5,
        report_collection_name: "cmesh-report".to_string(),
        peer_collection_name: "cmesh-peers".to_string(),
        peer_doc_id: vec![1],
        min_msg_delay_msec: 10,
        max_msg_delay_msec: 500,
        peers: vec![a, b, c],
        connections,
    };
    // descending insertion order: "a_1" enters last and dials the others
    let targets = dial_targets(&plan, &"a_1".to_string());
    assert_eq!(targets.len(), 2);
    assert!(targets.contains(&"10.0.0.3:4003".to_string()));
    assert!(targets.contains(&"10.0.0.2:4002".to_string()));
    // the first-inserted vertex dials nobody
    let none = dial_targets(&plan, &"c_3".to_string());
    assert_eq!(none.len(), 0);
}

#[test]
fn test_make_report() {
    let mut stats = LatencyStats::new();
    stats.num_events = 4;
    stats.min_msec = 1;
    stats.max_msec = 9;
    stats.avg_msec = 5;
    stats.distinct_peers = 2;
    let report = make_report(stats, 17);
    assert_eq!(report.records_produced, 17);
    assert_eq!(report.message_latency, stats);
}
