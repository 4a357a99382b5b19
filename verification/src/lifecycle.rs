//! The peer's lifecycle: its context, the forward-only state machine, the
//! heartbeat payloads it publishes, and the decisions of its run loop.

use vstd::prelude::*;
use vstd::string::StringExecFns;
use crate::types::{
    CoordinatorInfo, ExecutionPlan, Heartbeat, LatencyStats, Peer, PeerId, PeerReport, PeerState,
    plan_like,
};

verus! {

/// The canonical forward order of peer states.
pub open spec fn lifecycle_order() -> Seq<PeerState> {
    seq![
        PeerState::Init,
        PeerState::Ready,
        PeerState::Running,
        PeerState::Reporting,
        PeerState::Shutdown,
    ]
}

/// Whether `s` occurs inside `t` in order, not necessarily contiguously.
pub open spec fn is_subsequence(s: Seq<PeerState>, t: Seq<PeerState>) -> bool
    decreases t.len(),
{
    if s.len() == 0 {
        true
    } else if t.len() == 0 {
        false
    } else if s[0] == t[0] {
        is_subsequence(s.drop_first(), t.drop_first())
    } else {
        is_subsequence(s, t.drop_first())
    }
}

/// The state at each rank of the canonical order.
proof fn lemma_rank_characterizes(s: PeerState)
    ensures
        0 <= s.rank() < 5,
        lifecycle_order()[s.rank()] == s,
{
}

proof fn lemma_subsequence_of_tail(s: Seq<PeerState>, k: int)
    requires
        0 <= k <= 5,
        forall|i: int| 0 <= i < s.len() ==> k <= (#[trigger] s[i]).rank() < 5,
        forall|i: int| 0 < i < s.len() ==> s[i - 1].rank() < (#[trigger] s[i]).rank(),
    ensures
        is_subsequence(s, lifecycle_order().skip(k)),
    decreases 5 - k,
{
    let t = lifecycle_order().skip(k);
    if s.len() == 0 {
    } else if k == 5 {
        assert(s[0].rank() >= 5);
        assert(false);
    } else {
        assert(t[0] == lifecycle_order()[k]);
        assert(t.drop_first() =~= lifecycle_order().skip(k + 1));
        let s1 = s.drop_first();
        assert(forall|i: int| 0 <= i < s1.len() ==> s1[i] == s[i + 1]);
        if s[0].rank() == k {
            lemma_rank_characterizes(s[0]);
            assert(s[0] == t[0]);
            assert forall|i: int| 0 <= i < s1.len() implies k + 1 <= (#[trigger] s1[i]).rank()
                < 5 by {
                assert(s1[i] == s[i + 1]);
                if i == 0 {
                    assert(s[0].rank() < s[1].rank());
                } else {
                    assert(s[i].rank() < s[i + 1].rank());
                    assert(s[i].rank() >= k);
                }
            }
            assert forall|i: int| 0 < i < s1.len() implies s1[i - 1].rank() < (
            #[trigger] s1[i]).rank() by {
                assert(s1[i - 1] == s[i] && s1[i] == s[i + 1]);
            }
            lemma_subsequence_of_tail(s1, k + 1);
        } else {
            lemma_rank_characterizes(s[0]);
            lemma_rank_characterizes(t[0]);
            assert(s[0] != t[0]);
            assert(forall|i: int| 0 <= i < s.len() ==> k + 1 <= (#[trigger] s[i]).rank() < 5);
            lemma_subsequence_of_tail(s, k + 1);
        }
    }
}

/// State monotonicity: any sequence of states a peer traverses — each
/// transition strictly forward — is a subsequence of
/// `Init, Ready, Running, Reporting, Shutdown`.
pub proof fn lemma_states_subsequence(s: Seq<PeerState>)
    requires
        forall|i: int| 0 < i < s.len() ==> s[i - 1].rank() < (#[trigger] s[i]).rank(),
    ensures
        is_subsequence(s, lifecycle_order()),
{
    assert forall|i: int| 0 <= i < s.len() implies 0 <= (#[trigger] s[i]).rank() < 5 by {
        lemma_rank_characterizes(s[i]);
    }
    assert(lifecycle_order().skip(0) =~= lifecycle_order());
    lemma_subsequence_of_tail(s, 0);
}

/// A peer's bookkeeping between bootstrap and shutdown. The replicated
/// store's handles stay with the process embedding; the context carries
/// what the protocol decisions read.
#[derive(Debug)]
pub struct PeerContext {
    pub id: PeerId,
    pub coord_addr: Option<String>,
    pub coord_info: Option<CoordinatorInfo>,
    pub local_ip: String,
    pub local_port: u16,
    pub start_time_msec: u64,
    pub state: PeerState,
}

impl PeerContext {
    /// A freshly bootstrapped peer: a random id prefixed with the device
    /// name, the resolved local endpoint, and the `Init` state.
    pub fn new(device_name: &str, local_ip: &str, local_port: u16) -> (r: Self)
        ensures
            exists|n: u64| r.id@ == crate::types::spec_peer_id(device_name@, n),
            r.coord_addr is None,
            r.coord_info is None,
            r.local_ip@ == local_ip@,
            r.local_port == local_port,
            r.state == PeerState::Init,
    {
        PeerContext {
            id: crate::types::random_peer_id(Some(device_name)),
            coord_addr: None,
            coord_info: None,
            local_ip: local_ip.to_owned(),
            local_port,
            start_time_msec: crate::caps::system_time_msec(),
            state: PeerState::Init,
        }
    }

    /// A copy of the execution plan, once the coordinator has published
    /// one.
    pub fn get_plan(&self) -> (r: Option<ExecutionPlan>)
        ensures
            r is Some <==> (self.coord_info is Some
                && self.coord_info.unwrap().execution_plan is Some),
            r matches Some(p) ==> plan_like(self.coord_info.unwrap().execution_plan.unwrap(), p),
    {
        match &self.coord_info {
            None => None,
            Some(ci) => match &ci.execution_plan {
                None => None,
                Some(plan) => Some(plan.clone()),
            },
        }
    }

    /// Move the lifecycle forward. The caller states which state it
    /// believes the peer is in, and only forward transitions are allowed:
    /// a peer never returns to an earlier phase.
    pub fn state_transition(&mut self, existing: Option<PeerState>, new: PeerState)
        requires
            existing matches Some(e) ==> e == old(self).state,
            old(self).state.rank() < new.rank(),
        ensures
            final(self).state == new,
            final(self).id == old(self).id,
            final(self).coord_addr == old(self).coord_addr,
            final(self).coord_info == old(self).coord_info,
            final(self).local_ip == old(self).local_ip,
            final(self).local_port == old(self).local_port,
            final(self).start_time_msec == old(self).start_time_msec,
    {
        self.state = new;
    }

    /// The peer record this context publishes inside its heartbeats.
    pub fn as_peer(&self) -> (r: Peer)
        ensures
            r@.peer_id == self.id@,
            r@.peer_ip_addr == self.local_ip@,
            r@.peer_port == self.local_port,
            r@.state == self.state,
    {
        Peer {
            peer_id: self.id.clone(),
            peer_ip_addr: self.local_ip.clone(),
            peer_port: self.local_port,
            state: self.state,
        }
    }
}

/// The heartbeat thread's state: who beats, and the record it re-stamps
/// and republishes every interval.
#[derive(Debug)]
pub struct HeartbeatCtx {
    pub peer_id: PeerId,
    pub record: Heartbeat,
}

impl HeartbeatCtx {
    pub fn new(peer_id: PeerId, record: Heartbeat) -> (r: Self)
        ensures
            r.peer_id@ == peer_id@,
            r.record@ == record@,
    {
        HeartbeatCtx { peer_id, record }
    }
}

/// The store path of one peer's slot in the heartbeats document.
pub open spec fn spec_heartbeat_path(peer_id: Seq<char>) -> Seq<char> {
    "beats."@ + peer_id
}

/// Refresh the heartbeat for sending: the sender carries the peer's
/// current state, the timestamp is re-stamped from the clock, and the
/// record is destined for the sender's own path in the heartbeats
/// document.
pub fn heartbeat_send_payload(hctx: &mut HeartbeatCtx, state: PeerState) -> (r: (String, Heartbeat))
    ensures
        final(hctx).peer_id == old(hctx).peer_id,
        final(hctx).record.sender@.peer_id == old(hctx).record.sender@.peer_id,
        final(hctx).record.sender@.peer_ip_addr == old(hctx).record.sender@.peer_ip_addr,
        final(hctx).record.sender@.peer_port == old(hctx).record.sender@.peer_port,
        final(hctx).record.sender@.state == state,
        r.0@ == spec_heartbeat_path(old(hctx).peer_id@),
        r.1@ == final(hctx).record@,
{
    hctx.record.update_timestamp();
    hctx.record.sender.state = state;
    let mut path = String::new();
    path.append("beats.");
    path.append(hctx.peer_id.as_str());
    proof {
        assert(path@ =~= spec_heartbeat_path(hctx.peer_id@));
    }
    (path, hctx.record.clone())
}

/// How long to sleep before the scheduled start; zero once the start time
/// has passed.
pub fn start_wait_msec(now: u64, start_time: u64) -> (r: u64)
    ensures
        r == (if now > start_time {
            0int
        } else {
            start_time - now
        }),
{
    if now > start_time {
        0
    } else {
        start_time - now
    }
}

/// The dial target of a peer, in `host:port` form.
pub open spec fn spec_dial_addr(ip: Seq<char>, port: u16) -> Seq<char> {
    ip + ":"@ + crate::strutil::dec_of(port as nat)
}

/// The addresses this peer must dial under the plan: one `host:port`
/// entry for each of its plan-directed neighbors.
pub fn dial_targets(plan: &ExecutionPlan, own_id: &PeerId) -> (r: Vec<String>)
    requires
        crate::coord::peers_distinct(plan.peers.deep_view()),
        plan.connections.wf(),
        plan.connections.contains_key(own_id@),
        forall|v: Seq<char>|
            #[trigger] plan.connections.edge(own_id@, v) ==> crate::coord::peers_has(
                plan.peers.deep_view(),
                v,
            ),
    ensures
        ({
            let ps = plan.peers.deep_view();
            let nbs = plan.connections.nmap@[plan.connections.index_of(own_id@)].nbs();
            &&& r.deep_view().len() == nbs.len()
            &&& forall|j: int|
                0 <= j < nbs.len() ==> {
                    let p = ps[crate::coord::peers_index(ps, nbs[j])];
                    #[trigger] r.deep_view()[j] == spec_dial_addr(p.peer_ip_addr, p.peer_port)
                }
        }),
{
    let ghost ps = plan.peers.deep_view();
    let own = match plan.connections.position_of(own_id) {
        Some(i) => i,
        None => {
            proof {
                assert(false);
            }
            return Vec::new();
        },
    };
    let ghost nbs = plan.connections.nmap@[own as int].nbs();
    proof {
        assert(plan.connections.index_of(own_id@) == own as int);
    }
    let entry = &plan.connections.nmap[own];
    let mut out: Vec<String> = Vec::new();
    let mut j: usize = 0;
    while j < entry.neighbors.len()
        invariant
            crate::coord::peers_distinct(ps),
            ps == plan.peers.deep_view(),
            own < plan.connections.nmap@.len(),
            *entry == plan.connections.nmap@[own as int],
            nbs == entry.nbs(),
            plan.connections.wf(),
            plan.connections.nmap@[own as int].id@ == own_id@,
            forall|v: Seq<char>|
                #[trigger] plan.connections.edge(own_id@, v) ==> crate::coord::peers_has(ps, v),
            j <= nbs.len(),
            out.deep_view().len() == j,
            forall|x: int|
                0 <= x < j ==> {
                    let p = ps[crate::coord::peers_index(ps, nbs[x])];
                    #[trigger] out.deep_view()[x] == spec_dial_addr(p.peer_ip_addr, p.peer_port)
                },
        decreases nbs.len() - j,
    {
        proof {
            assert(entry.nbs().contains(nbs[j as int]));
            assert(plan.connections.edge(own_id@, nbs[j as int]));
        }
        let target = find_peer(&plan.peers, &entry.neighbors[j]);
        let mut addr = target.peer_ip_addr.clone();
        addr.append(":");
        let digits = crate::strutil::u64_to_dec(target.peer_port as u64);
        addr.append(digits.as_str());
        proof {
            assert(addr@ =~= spec_dial_addr(target@.peer_ip_addr, target@.peer_port));
        }
        let ghost dv = out.deep_view();
        out.push(addr);
        proof {
            assert(out.deep_view() =~= dv.push(
                spec_dial_addr(target@.peer_ip_addr, target@.peer_port),
            ));
        }
        j = j + 1;
    }
    out
}

/// The unique peer record carrying `id`.
fn find_peer<'a>(peers: &'a Vec<Peer>, id: &PeerId) -> (r: &'a Peer)
    requires
        crate::coord::peers_distinct(peers.deep_view()),
        crate::coord::peers_has(peers.deep_view(), id@),
    ensures
        r@ == peers.deep_view()[crate::coord::peers_index(peers.deep_view(), id@)],
{
    let ghost ps = peers.deep_view();
    let mut i: usize = 0;
    while i < peers.len()
        invariant
            ps == peers.deep_view(),
            crate::coord::peers_distinct(ps),
            crate::coord::peers_has(ps, id@),
            i <= ps.len(),
            forall|j: int| 0 <= j < i ==> (#[trigger] ps[j]).peer_id != id@,
        decreases ps.len() - i,
    {
        if peers[i].peer_id == *id {
            proof {
                assert(ps[i as int].peer_id == id@);
                assert(ps[crate::coord::peers_index(ps, id@)].peer_id == id@);
                assert(crate::coord::peers_index(ps, id@) == i as int);
            }
            return &peers[i];
        }
        i = i + 1;
    }
    proof {
        let k = crate::coord::peers_index(ps, id@);
        assert(ps[k].peer_id == id@);
        assert(false);
    }
    &peers[0]
}

/// Assemble the end-of-run report from the consumer's statistics and the
/// producer's record count.
pub fn make_report(message_latency: LatencyStats, records_produced: u64) -> (r: PeerReport)
    ensures
        r == (PeerReport { message_latency, records_produced }),
{
    PeerReport { message_latency, records_produced }
}

} // verus!
