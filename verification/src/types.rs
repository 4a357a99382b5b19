//! Record shapes shared by the coordinator and the peers, their views and
//! their well-formedness predicates.

use vstd::prelude::*;
use vstd::string::StringExecFns;

verus! {

/// Opaque identifier of a peer, stable for the peer's lifetime.
/// Equality is by string value.
pub type PeerId = String;

/// The id a peer of the given device name would generate: the prefix, an
/// underscore, and a 64-bit value in lower-case hexadecimal.
pub open spec fn spec_peer_id(prefix: Seq<char>, n: u64) -> Seq<char> {
    prefix + seq!['_'] + crate::strutil::hex_of(n as nat)
}

/// A fresh peer id drawn from the process random source.
pub fn random_peer_id(prefix: Option<&str>) -> (r: PeerId)
    ensures
        prefix is Some ==> exists|n: u64| r@ == spec_peer_id(prefix.unwrap()@, n),
        prefix is None ==> exists|n: u64| r@ == crate::strutil::hex_of(n as nat),
{
    let n = rand::random::<u64>();
    let digits = crate::strutil::u64_to_hex(n);
    match prefix {
        None => digits,
        Some(p) => {
            let mut s = p.to_owned();
            s.push('_');
            s.append(digits.as_str());
            proof {
                assert(s@ =~= spec_peer_id(p@, n));
            }
            s
        },
    }
}

/// Lifecycle phase of a peer. A peer only ever moves forward through
/// `Init -> Ready -> Running -> Reporting -> Shutdown`.
#[derive(Clone, Copy, Debug, PartialEq, Eq, Structural)]
pub enum PeerState {
    Init,
    Ready,
    Running,
    Reporting,
    Shutdown,
}

impl PeerState {
    /// Position of the state in the forward lifecycle order.
    pub open spec fn rank(self) -> int {
        match self {
            PeerState::Init => 0,
            PeerState::Ready => 1,
            PeerState::Running => 2,
            PeerState::Reporting => 3,
            PeerState::Shutdown => 4,
        }
    }

    /// Display name of the state.
    pub fn name(&self) -> (r: String)
        ensures
            r@ == self.spec_name(),
    {
        match self {
            PeerState::Init => "Init".to_owned(),
            PeerState::Ready => "Ready".to_owned(),
            PeerState::Running => "Running".to_owned(),
            PeerState::Reporting => "Reporting".to_owned(),
            PeerState::Shutdown => "Shutdown".to_owned(),
        }
    }

    pub open spec fn spec_name(self) -> Seq<char> {
        match self {
            PeerState::Init => "Init"@,
            PeerState::Ready => "Ready"@,
            PeerState::Running => "Running"@,
            PeerState::Reporting => "Reporting"@,
            PeerState::Shutdown => "Shutdown"@,
        }
    }
}

/// Which connection-graph algorithm a run uses.
#[derive(Clone, Copy, Debug, PartialEq, Eq, Structural)]
pub enum GraphType {
    Complete,
    SpanningTree,
    LAModel,
}

impl GraphType {
    /// Name used in the graph artifact's file name.
    pub fn name(&self) -> (r: String)
        ensures
            r@ == self.spec_name(),
    {
        match self {
            GraphType::Complete => "complete".to_owned(),
            GraphType::SpanningTree => "spanning-tree".to_owned(),
            GraphType::LAModel => "la-model".to_owned(),
        }
    }

    pub open spec fn spec_name(self) -> Seq<char> {
        match self {
            GraphType::Complete => "complete"@,
            GraphType::SpanningTree => "spanning-tree"@,
            GraphType::LAModel => "la-model"@,
        }
    }
}

/// Mathematical value of a [`Peer`].
pub ghost struct PeerV {
    pub peer_id: Seq<char>,
    pub peer_ip_addr: Seq<char>,
    pub peer_port: u16,
    pub state: PeerState,
}

/// A participant as the coordinator sees it. Identity is the `peer_id`
/// alone; `state` is mutable metadata that replaces on update.
#[derive(Debug)]
pub struct Peer {
    pub peer_id: PeerId,
    pub peer_ip_addr: String,
    pub peer_port: u16,
    pub state: PeerState,
}

impl View for Peer {
    type V = PeerV;

    open spec fn view(&self) -> PeerV {
        PeerV {
            peer_id: self.peer_id@,
            peer_ip_addr: self.peer_ip_addr@,
            peer_port: self.peer_port,
            state: self.state,
        }
    }
}

impl Clone for Peer {
    fn clone(&self) -> (r: Self)
        ensures
            r@ == self@,
    {
        Peer {
            peer_id: self.peer_id.clone(),
            peer_ip_addr: self.peer_ip_addr.clone(),
            peer_port: self.peer_port,
            state: self.state,
        }
    }
}

impl PartialEq for Peer {
    /// Peers are compared by `peer_id` only.
    fn eq(&self, other: &Self) -> (r: bool) {
        self.peer_id == other.peer_id
    }
}

impl vstd::std_specs::cmp::PartialEqSpecImpl for Peer {
    open spec fn obeys_eq_spec() -> bool {
        true
    }

    open spec fn eq_spec(&self, other: &Peer) -> bool {
        self.peer_id@ == other.peer_id@
    }
}

impl DeepView for Peer {
    type V = PeerV;

    open spec fn deep_view(&self) -> PeerV {
        self.view()
    }
}

/// Mathematical value of a [`Heartbeat`].
pub ghost struct HeartbeatV {
    pub sender: PeerV,
    pub sent_at_msec: u64,
}

/// A per-peer liveness record carrying the peer's current state.
/// Identity is the sender; the timestamp never participates in equality.
#[derive(Debug)]
pub struct Heartbeat {
    pub sender: Peer,
    pub sent_at_msec: u64,
}

impl View for Heartbeat {
    type V = HeartbeatV;

    open spec fn view(&self) -> HeartbeatV {
        HeartbeatV { sender: self.sender@, sent_at_msec: self.sent_at_msec }
    }
}

impl Clone for Heartbeat {
    fn clone(&self) -> (r: Self)
        ensures
            r@ == self@,
    {
        Heartbeat { sender: self.sender.clone(), sent_at_msec: self.sent_at_msec }
    }
}

impl PartialEq for Heartbeat {
    /// Heartbeats are compared by sender only.
    fn eq(&self, other: &Self) -> (r: bool) {
        self.sender == other.sender
    }
}

impl vstd::std_specs::cmp::PartialEqSpecImpl for Heartbeat {
    open spec fn obeys_eq_spec() -> bool {
        true
    }

    open spec fn eq_spec(&self, other: &Heartbeat) -> bool {
        self.sender.peer_id@ == other.sender.peer_id@
    }
}

impl DeepView for Heartbeat {
    type V = HeartbeatV;

    open spec fn deep_view(&self) -> HeartbeatV {
        self.view()
    }
}

impl Heartbeat {
    /// Stamp the heartbeat with the current clock reading. Nothing can be
    /// promised of the clock, so only the sender is pinned down.
    pub fn update_timestamp(&mut self)
        ensures
            final(self).sender@ == old(self).sender@,
    {
        self.sent_at_msec = crate::caps::system_time_msec();
    }
}

/// The latest heartbeat of every peer, one entry per sender. Exactly one
/// instance exists per run; each peer only replaces its own entry.
#[derive(Debug)]
pub struct HeartbeatsDoc {
    pub beats: Vec<Heartbeat>,
}

impl HeartbeatsDoc {
    /// One entry per sender id.
    pub open spec fn wf(self) -> bool {
        forall|i: int, j: int|
            0 <= i < j < self.beats@.len() ==> self.beats@[i]@.sender.peer_id
                != self.beats@[j]@.sender.peer_id
    }
}

/// Mathematical value of a [`PeerRecord`].
pub ghost struct PeerRecordV {
    pub timestamp: u64,
    pub data: Seq<char>,
}

/// One produced message: immutable once written to a slot, overwritten
/// wholesale when the ring wraps.
#[derive(Debug)]
pub struct PeerRecord {
    pub timestamp: u64,
    pub data: String,
}

impl View for PeerRecord {
    type V = PeerRecordV;

    open spec fn view(&self) -> PeerRecordV {
        PeerRecordV { timestamp: self.timestamp, data: self.data@ }
    }
}

impl Clone for PeerRecord {
    fn clone(&self) -> (r: Self)
        ensures
            r@ == self@,
    {
        PeerRecord { timestamp: self.timestamp, data: self.data.clone() }
    }
}

/// Bounded circular log of peer records. Slot `i` holds the record whose
/// logical sequence position is congruent to `i`; the writer overwrites the
/// oldest slot on wrap.
#[derive(Debug)]
pub struct PeerLog {
    /// Slot most recently written; `-1` while the log is empty.
    pub last_index: i32,
    /// Number of slots in the ring.
    pub max_log_size: u32,
    /// The slots; `None` where nothing was written yet.
    pub log: Vec<Option<PeerRecord>>,
}

impl PeerLog {
    pub open spec fn wf(self) -> bool {
        &&& self.log@.len() == self.max_log_size
        &&& self.max_log_size <= i32::MAX
        &&& -1 <= self.last_index < self.max_log_size as int
    }

    /// Value of slot `i`.
    pub open spec fn slot(self, i: int) -> Option<PeerRecordV> {
        match self.log@[i] {
            Some(r) => Some(r@),
            None => None,
        }
    }

    /// An empty ring of [`crate::defaults::PEER_LOG_SIZE`] slots.
    pub fn new() -> (r: Self)
        ensures
            r.wf(),
            r.max_log_size == crate::defaults::PEER_LOG_SIZE,
            r.last_index == -1,
            forall|i: int| 0 <= i < r.max_log_size ==> r.slot(i) is None,
    {
        let mut log: Vec<Option<PeerRecord>> = Vec::new();
        let mut i: u32 = 0;
        while i < crate::defaults::PEER_LOG_SIZE
            invariant
                i <= crate::defaults::PEER_LOG_SIZE,
                log@.len() == i,
                forall|j: int| 0 <= j < i ==> log@[j] is None,
            decreases crate::defaults::PEER_LOG_SIZE - i,
        {
            log.push(None);
            i = i + 1;
        }
        PeerLog { last_index: -1, max_log_size: crate::defaults::PEER_LOG_SIZE, log }
    }

    /// Overwrite slot `index` with `rec`, as the producer does when the
    /// ring advances.
    pub fn store_record(&mut self, index: u32, rec: PeerRecord)
        requires
            old(self).wf(),
            index < old(self).max_log_size,
        ensures
            final(self).wf(),
            final(self).max_log_size == old(self).max_log_size,
            final(self).last_index == index as i32,
            final(self).slot(index as int) == Some(rec@),
            forall|i: int|
                0 <= i < final(self).max_log_size && i != index ==> final(self).slot(i) == old(
                    self,
                ).slot(i),
    {
        self.log.set(index as usize, Some(rec));
        self.last_index = index as i32;
    }
}

/// One peer's sub-log within the shared peer document.
#[derive(Debug)]
pub struct PeerLogEntry {
    pub peer_id: PeerId,
    pub log: PeerLog,
}

/// The shared log document: one sub-log per peer, each created and written
/// by its owner only. Exactly one instance exists per run.
#[derive(Debug)]
pub struct PeerDoc {
    /// Store-assigned document identity, opaque bytes.
    pub id: Vec<u8>,
    pub logs: Vec<PeerLogEntry>,
}

impl PeerDoc {
    /// One sub-log per peer id, each well formed.
    pub open spec fn wf(self) -> bool {
        &&& forall|i: int, j: int|
            0 <= i < j < self.logs@.len() ==> self.logs@[i].peer_id@ != self.logs@[j].peer_id@
        &&& forall|i: int| 0 <= i < self.logs@.len() ==> (#[trigger] self.logs@[i].log).wf()
    }

    /// The document a peer upserts before consuming: the given identity
    /// and a single empty sub-log of its own.
    pub fn initial(id: Vec<u8>, own_id: PeerId) -> (r: Self)
        ensures
            r.wf(),
            r.id@ == id@,
            r.logs@.len() == 1,
            r.logs@[0].peer_id@ == own_id@,
            r.logs@[0].log.max_log_size == crate::defaults::PEER_LOG_SIZE,
            r.logs@[0].log.last_index == -1,
            forall|s: int|
                0 <= s < crate::defaults::PEER_LOG_SIZE ==> r.logs@[0].log.slot(s) is None,
    {
        let mut logs: Vec<PeerLogEntry> = Vec::new();
        logs.push(PeerLogEntry { peer_id: own_id, log: PeerLog::new() });
        PeerDoc { id, logs }
    }
}

/// The bytes of an ASCII character sequence.
pub open spec fn chars_as_bytes(s: Seq<char>) -> Seq<u8> {
    Seq::new(s.len(), |i: int| s[i] as u8)
}

/// A fresh identity for the shared peer-log document: the bytes of a
/// random 64-bit value's hexadecimal numeral.
pub fn random_doc_id() -> (r: Vec<u8>)
    ensures
        exists|n: u64| r@ == chars_as_bytes(crate::strutil::hex_of(n as nat)),
{
    let n = rand::random::<u64>();
    let digits = crate::strutil::u64_to_hex(n);
    proof {
        crate::strutil::lemma_hex_of_ascii(n as nat);
    }
    let bytes = digits.as_str().as_bytes_vec();
    proof {
        vstd::utf8::is_ascii_chars_encode_utf8(digits@);
        assert(bytes@ =~= chars_as_bytes(crate::strutil::hex_of(n as nat)));
    }
    bytes
}

/// The coordinator-generated object telling peers when to start, how long
/// to run, which peers exist, and which of them to dial.
#[derive(Debug)]
pub struct ExecutionPlan {
    /// Scheduled start in epoch milliseconds; `0` means not yet scheduled.
    pub start_time: u64,
    pub test_duration_sec: u32,
    pub report_collection_name: String,
    pub peer_collection_name: String,
    /// Identity of the shared peer-log document, opaque bytes.
    pub peer_doc_id: Vec<u8>,
    /// Inclusive lower bound of the producer's random pause.
    pub min_msg_delay_msec: u32,
    /// Exclusive upper bound of the producer's random pause.
    pub max_msg_delay_msec: u32,
    pub peers: Vec<Peer>,
    pub connections: crate::graph::PeerGraph,
}

impl ExecutionPlan {
    pub open spec fn wf(self) -> bool {
        &&& 0 < self.min_msg_delay_msec < self.max_msg_delay_msec
        &&& self.connections.wf()
    }
}

/// Two plans with the same value, field for field.
pub open spec fn plan_like(a: ExecutionPlan, b: ExecutionPlan) -> bool {
    &&& a.start_time == b.start_time
    &&& a.test_duration_sec == b.test_duration_sec
    &&& a.report_collection_name@ == b.report_collection_name@
    &&& a.peer_collection_name@ == b.peer_collection_name@
    &&& a.peer_doc_id@ == b.peer_doc_id@
    &&& a.min_msg_delay_msec == b.min_msg_delay_msec
    &&& a.max_msg_delay_msec == b.max_msg_delay_msec
    &&& a.peers.deep_view() == b.peers.deep_view()
    &&& crate::graph::graph_like(a.connections, b.connections)
}

impl Clone for ExecutionPlan {
    fn clone(&self) -> (r: Self)
        ensures
            plan_like(*self, r),
    {
        let mut peers: Vec<Peer> = Vec::new();
        let mut i: usize = 0;
        while i < self.peers.len()
            invariant
                i <= self.peers@.len(),
                peers.deep_view() == self.peers.deep_view().take(i as int),
            decreases self.peers@.len() - i,
        {
            let ghost dv = peers.deep_view();
            peers.push(self.peers[i].clone());
            proof {
                assert(peers.deep_view() =~= dv.push(self.peers.deep_view()[i as int]));
                assert(peers.deep_view() =~= self.peers.deep_view().take(i + 1));
            }
            i = i + 1;
        }
        proof {
            assert(self.peers.deep_view().take(self.peers@.len() as int) =~= self.peers.deep_view());
        }
        let peer_doc_id = self.peer_doc_id.clone();
        proof {
            assert forall|k: int| 0 <= k < peer_doc_id@.len() implies peer_doc_id@[k]
                == self.peer_doc_id@[k] by {
                assert(cloned::<u8>(self.peer_doc_id[k], peer_doc_id[k]));
            }
            assert(peer_doc_id@ =~= self.peer_doc_id@);
        }
        ExecutionPlan {
            start_time: self.start_time,
            test_duration_sec: self.test_duration_sec,
            report_collection_name: self.report_collection_name.clone(),
            peer_collection_name: self.peer_collection_name.clone(),
            peer_doc_id,
            min_msg_delay_msec: self.min_msg_delay_msec,
            max_msg_delay_msec: self.max_msg_delay_msec,
            peers,
            connections: self.connections.clone(),
        }
    }
}

/// The document the coordinator owns: where heartbeats go, how often they
/// are expected, and eventually the plan. Exactly one instance per run.
#[derive(Debug)]
pub struct CoordinatorInfo {
    pub heartbeat_collection_name: String,
    pub heartbeat_interval_sec: u32,
    pub execution_plan: Option<ExecutionPlan>,
}

/// Latency summary over all records a consumer has seen.
#[derive(Clone, Copy, Debug, PartialEq, Eq, Structural)]
pub struct LatencyStats {
    pub num_events: u64,
    pub min_msec: u64,
    pub max_msec: u64,
    pub avg_msec: u64,
    pub distinct_peers: usize,
}

impl LatencyStats {
    /// The empty summary: no events, minimum saturated high so that the
    /// first event lowers it.
    pub fn new() -> (r: Self)
        ensures
            r == (LatencyStats {
                num_events: 0u64,
                min_msec: u64::MAX,
                max_msec: 0u64,
                avg_msec: 0u64,
                distinct_peers: 0usize,
            }),
    {
        LatencyStats { num_events: 0, min_msec: u64::MAX, max_msec: 0, avg_msec: 0, distinct_peers: 0 }
    }
}

/// Time a peer spent without connectivity, in epoch milliseconds.
#[derive(Clone, Copy, Debug, PartialEq, Eq, Structural)]
pub struct AvailabilityStats {
    pub start_time_msec: u64,
    pub end_time_msec: u64,
    pub down_time_msec: u64,
}

/// What a peer reports at the end of a run.
#[derive(Clone, Copy, Debug, PartialEq, Eq, Structural)]
pub struct PeerReport {
    pub message_latency: LatencyStats,
    pub records_produced: u64,
}

} // verus!
