use cmesh::consumer::sat_add_u64;
use cmesh::defaults::PEER_LOG_SIZE;
use cmesh::minheap::MinHeap;
use cmesh::producer::{producer_send, ProducerCtx};
use cmesh::strutil::{short_peer_id, short_peer_str, sort_desc, str_lt, u64_to_dec, u64_to_hex};
use cmesh::types::{
    random_doc_id, random_peer_id, CoordinatorInfo, ExecutionPlan, GraphType, LatencyStats,
    PeerDoc, PeerLog, PeerState,
};

#[test]
fn test_state_names() {
    assert_eq!(PeerState::Init.name(), "Init");
    assert_eq!(PeerState::Ready.name(), "Ready");
    assert_eq!(PeerState::Running.name(), "Running");
    assert_eq!(PeerState::Reporting.name(), "Reporting");
    assert_eq!(PeerState::Shutdown.name(), "Shutdown");
    assert_eq!(GraphType::Complete.name(), "complete");
    assert_eq!(GraphType::SpanningTree.name(), "spanning-tree");
    assert_eq!(GraphType::LAModel.name(), "la-model");
}

#[test]
fn test_latency_stats_new() {
    let s = LatencyStats::new();
    assert_eq!(s.num_events, 0);
    assert_eq!(s.min_msec, u64::MAX);
    assert_eq!(s.max_msec, 0);
    assert_eq!(s.avg_msec, 0);
    assert_eq!(s.distinct_peers, 0);
}

#[test]
fn test_coordinator_info_default() {
    let ci = CoordinatorInfo::default();
    assert_eq!(ci.heartbeat_collection_name, "cmesh-heartbeat");
    assert_eq!(ci.heartbeat_interval_sec, 5);
    assert!(ci.execution_plan.is_none());
}

#[test]
fn test_peer_log_new() {
    let log = PeerLog::new();
    assert_eq!(log.max_log_size, PEER_LOG_SIZE);
    assert_eq!(log.last_index, -1);
    assert_eq!(log.log.len(), PEER_LOG_SIZE as usize);
    assert!(log.log.iter().all(|s| s.is_none()));
}

#[test]
fn test_random_peer_id_shape() {
    let id = random_peer_id(Some("peer7"));
    assert!(id.starts_with("peer7_"));
    let hex = &id["peer7_".len()..];
    assert!(!hex.is_empty());
    assert!(hex.chars().all(|c| c.is_ascii_hexdigit()));
    let bare = random_peer_id(None);
    assert!(bare.chars().all(|c| c.is_ascii_hexdigit()));
}

#[test]
fn test_random_doc_id_is_hex_bytes() {
    let id = random_doc_id();
    assert!(!id.is_empty());
    assert!(id.iter().all(|b| b.is_ascii_hexdigit()));
}

#[test]
fn test_short_peer_id_forms() {
    assert_eq!(short_peer_id(&"peer12_beef".to_string()), "12");
    assert_eq!(short_peer_str("peer3_a"), "3");
    assert_eq!(short_peer_str("peer12345678"), "1234");
    assert_eq!(short_peer_str("coordinator"), "coor");
    assert_eq!(short_peer_str("ab"), "ab");
}

#[test]
fn test_numeral_rendering() {
    assert_eq!(u64_to_hex(0), "0");
    assert_eq!(u64_to_hex(0xdeadbeef), "deadbeef");
    assert_eq!(u64_to_dec(0), "0");
    assert_eq!(u64_to_dec(65535), "65535");
}

#[test]
fn test_sort_desc_and_order() {
    assert!(str_lt("abc", "abd"));
    assert!(str_lt("ab", "abc"));
    assert!(!str_lt("abc", "abc"));
    let sorted = sort_desc(vec!["1".to_string(), "9".to_string(), "5".to_string()]);
    assert_eq!(sorted, vec!["9".to_string(), "5".to_string(), "1".to_string()]);
}

#[test]
fn test_sat_add_saturates() {
    assert_eq!(sat_add_u64(1, 2), 3);
    assert_eq!(sat_add_u64(u64::MAX - 1, 5), u64::MAX);
}

#[test]
fn test_producer_send_path() {
    let plan = ExecutionPlan {
        start_time: 0,
        test_duration_sec: 5,
        report_collection_name: "cmesh-report".to_string(),
        peer_collection_name: "cmesh-peers".to_string(),
        peer_doc_id: vec![1],
        min_msg_delay_msec: 10,
        max_msg_delay_msec: 500,
        peers: Vec::new(),
        connections: cmesh::graph::PeerGraph::new(),
    };
    let mut prod = ProducerCtx::new("peerA_1".to_string(), plan);
    let (idx, rec, path) = producer_send(&mut prod, 424242);
    assert_eq!(idx, 0);
    assert_eq!(rec.timestamp, 424242);
    assert_eq!(rec.data, "");
    assert_eq!(path, "logs['peerA_1']['log']['0']");
    for expect in 1..PEER_LOG_SIZE {
        let (i2, _, _) = producer_send(&mut prod, 424243);
        assert_eq!(i2, expect);
    }
    let (wrapped, _, p2) = producer_send(&mut prod, 424244);
    assert_eq!(wrapped, 0);
    assert_eq!(p2, "logs['peerA_1']['log']['0']");
}

#[test]
fn test_producer_delay_in_bounds() {
    let plan = ExecutionPlan {
        start_time: 0,
        test_duration_sec: 5,
        report_collection_name: "cmesh-report".to_string(),
        peer_collection_name: "cmesh-peers".to_string(),
        peer_doc_id: vec![1],
        min_msg_delay_msec: 10,
        max_msg_delay_msec: 500,
        peers: Vec::new(),
        connections: cmesh::graph::PeerGraph::new(),
    };
    let prod = ProducerCtx::new("peerA_1".to_string(), plan);
    for _ in 0..100 {
        let d = prod.next_delay_msec();
        assert!((10..500).contains(&d));
    }
}

#[test]
fn test_initial_peer_doc() {
    let doc = PeerDoc::initial(vec![1, 2], "me_1".to_string());
    assert_eq!(doc.id, vec![1, 2]);
    assert_eq!(doc.logs.len(), 1);
    assert_eq!(doc.logs[0].peer_id, "me_1");
    assert_eq!(doc.logs[0].log.last_index, -1);
}

#[test]
fn test_min_heap_orders_keys() {
    let mut h = MinHeap::new();
    assert_eq!(h.len(), 0);
    assert!(h.pop().is_none());
    assert!(h.peek().is_none());
    h.push(5);
    h.push(1);
    h.push(9);
    h.push(1);
    assert_eq!(h.len(), 4);
    assert_eq!(h.peek(), Some(1));
    assert_eq!(h.pop(), Some(1));
    assert_eq!(h.pop(), Some(1));
    assert_eq!(h.pop(), Some(5));
    assert_eq!(h.pop(), Some(9));
    assert_eq!(h.pop(), None);
}
