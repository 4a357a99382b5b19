use cmesh::consumer::{incr_wrap, PeerConsumer};
use cmesh::defaults::PEER_LOG_SIZE;
use cmesh::producer::ProducerCtx;
use cmesh::types::{ExecutionPlan, PeerDoc, PeerLog, PeerLogEntry, PeerRecord};
use cmesh::graph::PeerGraph;

fn test_plan() -> ExecutionPlan {
    ExecutionPlan {
        start_time: 0,
        test_duration_sec: 5,
        report_collection_name: "cmesh-report".to_string(),
        peer_collection_name: "cmesh-peers".to_string(),
        peer_doc_id: vec![1, 2, 3],
        min_msg_delay_msec: 10,
        max_msg_delay_msec: 500,
        peers: Vec::new(),
        connections: PeerGraph::new(),
    }
}

fn record(ts: u64) -> PeerRecord {
    PeerRecord { timestamp: ts, data: String::new() }
}

#[test]
fn test_incr_wrap() {
    assert_eq!(incr_wrap(0, 15), 1);
    assert_eq!(incr_wrap(14, 15), 15);
    assert_eq!(incr_wrap(15, 15), 0);
}

#[test]
fn test_producer_ring_wrap() {
    // Forty records at distinct timestamps: the ring ends up holding
    // exactly the sixteen most recent ones, one per slot.
    let mut prod = ProducerCtx::new("peerA_1".to_string(), test_plan());
    let mut log = PeerLog::new();
    for k in 0..40u64 {
        let idx = prod.get_next_index();
        log.store_record(idx, record(1000 + 5 * k));
    }
    assert_eq!(log.log.len(), PEER_LOG_SIZE as usize);
    assert_eq!(log.max_log_size, PEER_LOG_SIZE);
    // 40 records: slots 0..8 hold the third lap (records 32..40), slots
    // 8..16 still hold the second lap (records 24..32)
    for i in 0..PEER_LOG_SIZE as u64 {
        let expected_k = if i < 8 { 32 + i } else { 16 + i };
        let slot = log.log[i as usize].as_ref().unwrap();
        assert_eq!(slot.timestamp, 1000 + 5 * expected_k);
    }
    // the sixteen timestamps present are exactly the sixteen newest writes
    let mut held: Vec<u64> = log.log.iter().map(|s| s.as_ref().unwrap().timestamp).collect();
    held.sort();
    let newest: Vec<u64> = (24..40).map(|k| 1000 + 5 * k).collect();
    assert_eq!(held, newest);
}

#[test]
fn test_consumer_reads_fresh_records() {
    let mut consumer = PeerConsumer::new("me_1".to_string());
    let mut log = PeerLog::new();
    log.store_record(0, record(100));
    log.store_record(1, record(110));
    log.store_record(2, record(120));
    consumer.process_peer("src_1".to_string(), &log, 150);
    let stats = consumer.get_message_latency();
    assert_eq!(stats.num_events, 3);
    assert_eq!(stats.min_msec, 30);
    assert_eq!(stats.max_msec, 50);
    assert_eq!(stats.avg_msec, 40);
    assert_eq!(stats.distinct_peers, 1);
    // the cursor rests one past the last record read
    assert_eq!(consumer.get_ts_idx(&"src_1".to_string()), (120, 3));
}

#[test]
fn test_consumer_wrap_detection() {
    // First snapshot: a full lap, every slot stamped t1. Starting from
    // (0, 0) the consumer eats all sixteen and rests at (t1, 0).
    let t1 = 100u64;
    let mut log = PeerLog::new();
    for i in 0..PEER_LOG_SIZE {
        log.store_record(i, record(t1));
    }
    let source = "src_1".to_string();
    let mut consumer = PeerConsumer::new("me_1".to_string());
    consumer.process_peer(source.clone(), &log, 200);
    assert_eq!(consumer.get_ts_idx(&source), (t1, 0));
    assert_eq!(consumer.get_message_latency().num_events, 16);

    // Second snapshot: the writer lapped slots 0..8 with t2 > t1. The
    // consumer records one event for every slot whose timestamp exceeds
    // t1 and stops at the first stale slot.
    let t2 = 300u64;
    for i in 0..8 {
        log.store_record(i, record(t2 + i as u64));
    }
    consumer.process_peer(source.clone(), &log, 400);
    let stats = consumer.get_message_latency();
    assert_eq!(stats.num_events, 16 + 8);
    assert_eq!(consumer.get_ts_idx(&source), (t2 + 7, 8));
}

#[test]
fn test_consumer_stops_at_empty_slot() {
    let mut consumer = PeerConsumer::new("me_1".to_string());
    let mut log = PeerLog::new();
    log.store_record(0, record(50));
    // slot 1 was never written: reading stops there
    log.store_record(2, record(60));
    consumer.process_peer("src_1".to_string(), &log, 100);
    let stats = consumer.get_message_latency();
    assert_eq!(stats.num_events, 1);
    assert_eq!(consumer.get_ts_idx(&"src_1".to_string()), (50, 1));
}

#[test]
fn test_process_peer_doc_skips_own_log() {
    let me = "me_1".to_string();
    let other = "other_1".to_string();
    let mut own_log = PeerLog::new();
    own_log.store_record(0, record(10));
    let mut other_log = PeerLog::new();
    other_log.store_record(0, record(20));
    other_log.store_record(1, record(30));
    let doc = PeerDoc {
        id: vec![7],
        logs: vec![
            PeerLogEntry { peer_id: me.clone(), log: own_log },
            PeerLogEntry { peer_id: other.clone(), log: other_log },
        ],
    };
    let mut consumer = PeerConsumer::new(me.clone());
    consumer.process_peer_doc(&doc, 100);
    let stats = consumer.get_message_latency();
    // only the other peer's two records count
    assert_eq!(stats.num_events, 2);
    assert_eq!(stats.distinct_peers, 1);
    assert_eq!(consumer.get_ts_idx(&other), (30, 2));
    assert_eq!(consumer.get_ts_idx(&me), (0, 0));
}

#[test]
fn test_process_peer_doc_idempotent() {
    // Processing the same snapshot twice leaves statistics and cursors
    // exactly where the first pass put them.
    let mut log = PeerLog::new();
    for i in 0..PEER_LOG_SIZE {
        log.store_record(i, record(100 + i as u64));
    }
    let doc = PeerDoc {
        id: vec![7],
        logs: vec![PeerLogEntry { peer_id: "src_1".to_string(), log }],
    };
    let mut consumer = PeerConsumer::new("me_1".to_string());
    consumer.process_peer_doc(&doc, 500);
    let first = consumer.get_message_latency();
    let cursor = consumer.get_ts_idx(&"src_1".to_string());
    consumer.process_peer_doc(&doc, 900);
    assert_eq!(consumer.get_message_latency(), first);
    assert_eq!(consumer.get_ts_idx(&"src_1".to_string()), cursor);
}

#[test]
fn test_latency_observation_not_in_future() {
    // Latency monotonicity at the boundary: a record stamped exactly at
    // the observation instant yields zero latency.
    let mut consumer = PeerConsumer::new("me_1".to_string());
    let mut log = PeerLog::new();
    log.store_record(0, record(777));
    consumer.process_peer("src_1".to_string(), &log, 777);
    let stats = consumer.get_message_latency();
    assert_eq!(stats.num_events, 1);
    assert_eq!(stats.min_msec, 0);
    assert_eq!(stats.max_msec, 0);
}
