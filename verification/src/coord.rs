//! The coordinator's core: the reactive peer set fed by heartbeats, the
//! quorum predicate its waits re-check, the start-delay formula, and plan
//! generation.

use vstd::prelude::*;
use crate::types::{
    ExecutionPlan, GraphType, Heartbeat, HeartbeatsDoc, Peer, PeerId, PeerState, PeerV,
};
use crate::graph::{complete_graph, local_attachment_model, spanning_tree, PeerGraph};

verus! {

/// The ids of a peer list, in order.
pub open spec fn peer_ids_of(ps: Seq<PeerV>) -> Seq<Seq<char>> {
    ps.map_values(|p: PeerV| p.peer_id)
}

/// At most one entry per peer id.
pub open spec fn peers_distinct(ps: Seq<PeerV>) -> bool {
    forall|i: int, j: int| 0 <= i < j < ps.len() ==> ps[i].peer_id != ps[j].peer_id
}

/// Whether a peer with this id is present.
pub open spec fn peers_has(ps: Seq<PeerV>, id: Seq<char>) -> bool {
    exists|i: int| 0 <= i < ps.len() && (#[trigger] ps[i]).peer_id == id
}

/// Index of the peer with this id.
pub open spec fn peers_index(ps: Seq<PeerV>, id: Seq<char>) -> int {
    choose|i: int| 0 <= i < ps.len() && (#[trigger] ps[i]).peer_id == id
}

/// The peer set after a heartbeat from `p`: the entry with `p`'s id is
/// replaced wholesale — peers are equal by id, so a fresh state
/// overwrites — or appended if the id is new.
pub open spec fn peers_replace(ps: Seq<PeerV>, p: PeerV) -> Seq<PeerV> {
    if peers_has(ps, p.peer_id) {
        ps.update(peers_index(ps, p.peer_id), p)
    } else {
        ps.push(p)
    }
}

/// The peer set after a whole heartbeats document, applied in document
/// order.
pub open spec fn peers_after_beats(ps: Seq<PeerV>, beats: Seq<crate::types::HeartbeatV>) -> Seq<
    PeerV,
>
    decreases beats.len(),
{
    if beats.len() == 0 {
        ps
    } else {
        peers_after_beats(peers_replace(ps, beats[0].sender), beats.drop_first())
    }
}

/// Replacing a peer keeps ids unique, records exactly that peer, and
/// leaves every other entry alone.
pub proof fn lemma_peers_replace(ps: Seq<PeerV>, p: PeerV)
    requires
        peers_distinct(ps),
    ensures
        ({
            let ps2 = peers_replace(ps, p);
            &&& peers_distinct(ps2)
            &&& peers_has(ps2, p.peer_id)
            &&& ps2[peers_index(ps2, p.peer_id)] == p
            &&& ps2.len() == (if peers_has(ps, p.peer_id) {
                ps.len()
            } else {
                ps.len() + 1
            })
        }),
{
    let ps2 = peers_replace(ps, p);
    if peers_has(ps, p.peer_id) {
        let k = peers_index(ps, p.peer_id);
        assert(ps[k].peer_id == p.peer_id);
        assert(forall|j: int| 0 <= j < ps2.len() && j != k ==> ps2[j] == ps[j]);
        assert(ps2[k] == p);
        assert(peers_distinct(ps2));
        assert(peers_has(ps2, p.peer_id));
        let k2 = peers_index(ps2, p.peer_id);
        assert(ps2[k2].peer_id == p.peer_id);
        if k2 != k {
            assert(ps[k2].peer_id == p.peer_id);
            assert(false);
        }
    } else {
        let n = ps.len() as int;
        assert(forall|j: int| 0 <= j < n ==> ps2[j] == ps[j]);
        assert(ps2[n] == p);
        assert forall|x: int, y: int| 0 <= x < y < ps2.len() implies ps2[x].peer_id
            != ps2[y].peer_id by {
            if y == n {
                assert(ps[x].peer_id != p.peer_id);
            }
        }
        assert(peers_has(ps2, p.peer_id));
        let k2 = peers_index(ps2, p.peer_id);
        assert(ps2[k2].peer_id == p.peer_id);
        if k2 != n {
            assert(ps[k2].peer_id == p.peer_id);
            assert(false);
        }
    }
}

/// Replace the entry for `p`'s id in the in-memory peer set, or add it.
pub fn upsert_peer(peers: &mut Vec<Peer>, p: Peer)
    requires
        peers_distinct(old(peers).deep_view()),
    ensures
        final(peers).deep_view() == peers_replace(old(peers).deep_view(), p@),
        peers_distinct(final(peers).deep_view()),
{
    let ghost ps = peers.deep_view();
    let ghost pv = p@;
    proof {
        lemma_peers_replace(ps, pv);
    }
    let mut i: usize = 0;
    while i < peers.len()
        invariant
            ps == peers.deep_view(),
            ps == old(peers).deep_view(),
            peers_distinct(ps),
            pv == p@,
            i <= ps.len(),
            forall|j: int| 0 <= j < i ==> (#[trigger] ps[j]).peer_id != pv.peer_id,
        decreases ps.len() - i,
    {
        if peers[i].peer_id == p.peer_id {
            proof {
                assert(ps[i as int].peer_id == pv.peer_id);
                assert(peers_has(ps, pv.peer_id));
                assert(ps[peers_index(ps, pv.peer_id)].peer_id == pv.peer_id);
                assert(peers_index(ps, pv.peer_id) == i as int);
            }
            peers.set(i, p);
            proof {
                assert(peers.deep_view() =~= peers_replace(ps, pv));
            }
            return ;
        }
        i = i + 1;
    }
    proof {
        if peers_has(ps, pv.peer_id) {
            let k = peers_index(ps, pv.peer_id);
            assert(ps[k].peer_id == pv.peer_id);
        }
    }
    peers.push(p);
    proof {
        assert(peers.deep_view() =~= peers_replace(ps, pv));
    }
}

/// Fold a delivered heartbeats document into the peer set: each sender's
/// entry is replaced, so its freshest state wins.
pub fn process_heartbeat(peers: &mut Vec<Peer>, hbd: &HeartbeatsDoc)
    requires
        peers_distinct(old(peers).deep_view()),
    ensures
        final(peers).deep_view() == peers_after_beats(
            old(peers).deep_view(),
            hbd.beats.deep_view(),
        ),
        peers_distinct(final(peers).deep_view()),
{
    let ghost beats = hbd.beats.deep_view();
    let ghost ps0 = peers.deep_view();
    let mut b: usize = 0;
    proof {
        assert(beats.take(0) =~= Seq::<crate::types::HeartbeatV>::empty());
    }
    while b < hbd.beats.len()
        invariant
            beats == hbd.beats.deep_view(),
            ps0 == old(peers).deep_view(),
            b <= beats.len(),
            peers.deep_view() == peers_after_beats(ps0, beats.take(b as int)),
            peers_distinct(peers.deep_view()),
        decreases beats.len() - b,
    {
        upsert_peer(peers, hbd.beats[b].sender.clone());
        proof {
            lemma_peers_after_beats_snoc(ps0, beats.take(b as int), beats[b as int]);
            assert(beats.take(b + 1) =~= beats.take(b as int).push(beats[b as int]));
        }
        b = b + 1;
    }
    proof {
        assert(beats.take(beats.len() as int) =~= beats);
    }
}

/// Folding one more heartbeat is one more replacement.
proof fn lemma_peers_after_beats_snoc(
    ps: Seq<PeerV>,
    beats: Seq<crate::types::HeartbeatV>,
    x: crate::types::HeartbeatV,
)
    ensures
        peers_after_beats(ps, beats.push(x)) == peers_replace(peers_after_beats(ps, beats), x.sender),
    decreases beats.len(),
{
    if beats.len() == 0 {
        assert(beats.push(x)[0] == x);
        assert(beats.push(x).drop_first() =~= Seq::<crate::types::HeartbeatV>::empty());
        assert(peers_after_beats(ps, beats) == ps);
        assert(peers_after_beats(peers_replace(ps, x.sender), beats.push(x).drop_first())
            == peers_replace(ps, x.sender));
        assert(peers_after_beats(ps, beats.push(x)) == peers_replace(ps, x.sender));
    } else {
        assert(beats.push(x)[0] == beats[0]);
        assert(beats.push(x).drop_first() =~= beats.drop_first().push(x));
        lemma_peers_after_beats_snoc(peers_replace(ps, beats[0].sender), beats.drop_first(), x);
    }
}

/// How many peers currently report a state in `states`.
pub open spec fn spec_count_in_states(ps: Seq<PeerV>, states: Seq<PeerState>) -> nat {
    ps.filter(|p: PeerV| states.contains(p.state)).len()
}

/// Whether `x` occurs in the list of target states.
fn states_contain(states: &Vec<PeerState>, x: PeerState) -> (r: bool)
    ensures
        r == states@.contains(x),
{
    let mut i: usize = 0;
    while i < states.len()
        invariant
            i <= states@.len(),
            forall|j: int| 0 <= j < i ==> states@[j] != x,
        decreases states@.len() - i,
    {
        if states[i] == x {
            return true;
        }
        i = i + 1;
    }
    false
}

/// Count the peers whose current state is one of the target states.
pub fn count_in_states(peers: &Vec<Peer>, states: &Vec<PeerState>) -> (r: usize)
    ensures
        r == spec_count_in_states(peers.deep_view(), states@),
{
    broadcast use vstd::seq_lib::group_seq_properties;

    let ghost ps = peers.deep_view();
    let ghost pred = |p: PeerV| states@.contains(p.state);
    let mut count: usize = 0;
    let mut i: usize = 0;
    proof {
        assert(ps.take(0) =~= Seq::<PeerV>::empty());
        assert(ps.take(0).filter(pred) =~= Seq::<PeerV>::empty());
    }
    while i < peers.len()
        invariant
            ps == peers.deep_view(),
            pred == (|p: PeerV| states@.contains(p.state)),
            i <= ps.len(),
            count == ps.take(i as int).filter(pred).len(),
            count <= i,
        decreases ps.len() - i,
    {
        let hit = states_contain(states, peers[i].state);
        proof {
            assert(ps.take(i + 1).drop_last() =~= ps.take(i as int));
            assert(ps.take(i + 1).last() == ps[i as int]);
            assert(ps.take(i + 1) =~= ps.take(i as int).push(ps[i as int]));
            ps.take(i as int).lemma_filter_len_push(pred, ps[i as int]);
            assert(ps[i as int].state == peers@[i as int].state);
        }
        if hit {
            count = count + 1;
        }
        i = i + 1;
    }
    proof {
        assert(ps.take(ps.len() as int) =~= ps);
    }
    count
}

/// The wait-for-state predicate the coordinator blocks on: at least
/// `min_peers` peers report a state in the non-empty target set.
pub fn quorum_reached(peers: &Vec<Peer>, states: &Vec<PeerState>, min_peers: usize) -> (r: bool)
    ensures
        r == (spec_count_in_states(peers.deep_view(), states@) >= min_peers),
{
    count_in_states(peers, states) >= min_peers
}

/// Seconds to wait before the synchronized start: ten, plus a quarter
/// second per peer — rounded up — once more than forty peers joined.
pub fn start_delay_secs(peers: &Vec<Peer>) -> (r: u64)
    ensures
        r == 10 + (if peers.deep_view().len() > 40 {
            (peers.deep_view().len() + 3) as int / 4
        } else {
            0int
        }),
{
    let n = peers.len() as u64;
    let mut seconds: u64 = 10;
    if n > 40 {
        let extra = n / 4 + (if n % 4 != 0 {
            1
        } else {
            0
        });
        proof {
            vstd::arithmetic::div_mod::lemma_fundamental_div_mod(n as int, 4);
            let q = n as int / 4;
            let rr = n as int % 4;
            if rr == 0 {
                vstd::arithmetic::div_mod::lemma_fundamental_div_mod_converse(
                    n as int + 3,
                    4,
                    q,
                    3,
                );
            } else {
                vstd::arithmetic::div_mod::lemma_fundamental_div_mod_converse(
                    n as int + 3,
                    4,
                    q + 1,
                    rr - 1,
                );
            }
        }
        seconds = seconds + extra;
    }
    seconds
}

/// Generate the execution plan for the discovered peers: the chosen
/// connection graph over their ids, the configured duration and pacing
/// bounds, a start time of zero — scheduling is deferred — and the
/// canonical collection names.
pub fn generate_plan(
    peers: &Vec<Peer>,
    duration_sec: u32,
    conn_graph: GraphType,
    peer_doc_id: Vec<u8>,
    min_msg_delay_msec: u32,
    max_msg_delay_msec: u32,
) -> (r: ExecutionPlan)
    requires
        peers_distinct(peers.deep_view()),
        peers.deep_view().len() <= u32::MAX,
        0 < min_msg_delay_msec < max_msg_delay_msec,
        conn_graph == GraphType::LAModel ==> peers.deep_view().len()
            >= crate::defaults::GRAPH_LA_CLIQUE_SIZE,
    ensures
        r.wf(),
        r.start_time == 0,
        r.test_duration_sec == duration_sec,
        r.report_collection_name@ == crate::defaults::REPORT_COLLECTION_NAME@,
        r.peer_collection_name@ == crate::defaults::PEER_COLLECTION_NAME@,
        r.peer_doc_id@ == peer_doc_id@,
        r.min_msg_delay_msec == min_msg_delay_msec,
        r.max_msg_delay_msec == max_msg_delay_msec,
        r.peers.deep_view() == peers.deep_view(),
        r.connections.keys().to_multiset() == peer_ids_of(peers.deep_view()).to_multiset(),
        conn_graph == GraphType::Complete ==> crate::graph::complete_shape(r.connections)
            && crate::strutil::sorted_desc(r.connections.keys()),
        conn_graph == GraphType::SpanningTree ==> exists|asc: Seq<Seq<char>>|
            crate::strutil::sorted_asc(asc) && asc.to_multiset() == peer_ids_of(
                peers.deep_view(),
            ).to_multiset() && #[trigger] crate::graph::tree_shape(
                r.connections,
                asc,
                crate::defaults::GRAPH_SPANNING_MAX_DEGREE as int,
            ),
        conn_graph == GraphType::LAModel && peers.deep_view().len() >= 2
            ==> crate::graph::no_isolated_vertex(r.connections),
{
    let ghost ids = peer_ids_of(peers.deep_view());
    let mut plan_peers: Vec<Peer> = Vec::new();
    let mut peer_ids: Vec<PeerId> = Vec::new();
    let mut i: usize = 0;
    while i < peers.len()
        invariant
            i <= peers.deep_view().len(),
            ids == peer_ids_of(peers.deep_view()),
            plan_peers.deep_view() == peers.deep_view().take(i as int),
            peer_ids.deep_view() == ids.take(i as int),
        decreases peers.deep_view().len() - i,
    {
        let ghost dvp = plan_peers.deep_view();
        let ghost dvi = peer_ids.deep_view();
        plan_peers.push(peers[i].clone());
        peer_ids.push(peers[i].peer_id.clone());
        proof {
            assert(plan_peers.deep_view() =~= dvp.push(peers.deep_view()[i as int]));
            assert(plan_peers.deep_view() =~= peers.deep_view().take(i + 1));
            assert(peer_ids.deep_view() =~= dvi.push(ids[i as int]));
            assert(peer_ids.deep_view() =~= ids.take(i + 1));
        }
        i = i + 1;
    }
    proof {
        assert(peers.deep_view().take(peers.deep_view().len() as int) =~= peers.deep_view());
        assert(ids.take(ids.len() as int) =~= ids);
        assert(crate::graph::distinct_ids(peer_ids.deep_view()));
    }
    let connections = match conn_graph {
        GraphType::Complete => complete_graph(&peer_ids),
        GraphType::SpanningTree => spanning_tree(
            &peer_ids,
            crate::defaults::GRAPH_SPANNING_MAX_DEGREE,
        ),
        GraphType::LAModel => local_attachment_model(
            &peer_ids,
            crate::defaults::GRAPH_LA_CLIQUE_SIZE,
        ),
    };
    proof {
        broadcast use vstd::seq_lib::group_to_multiset_ensures;

        if conn_graph == GraphType::SpanningTree {
            let d = crate::defaults::GRAPH_SPANNING_MAX_DEGREE as int;
            let asc = choose|asc: Seq<Seq<char>>|
                crate::strutil::sorted_asc(asc) && asc.to_multiset()
                    == peer_ids.deep_view().to_multiset() && #[trigger] crate::graph::tree_shape(
                    connections,
                    asc,
                    d,
                );
            assert(crate::graph::tree_shape(connections, asc, d));
            assert(asc.to_multiset().len() == ids.to_multiset().len());
            assert(asc.len() == ids.len());
            assert(connections.keys() =~= asc);
        }
    }
    ExecutionPlan {
        start_time: 0,
        test_duration_sec: duration_sec,
        report_collection_name: crate::defaults::REPORT_COLLECTION_NAME.to_owned(),
        peer_collection_name: crate::defaults::PEER_COLLECTION_NAME.to_owned(),
        peer_doc_id,
        min_msg_delay_msec,
        max_msg_delay_msec,
        peers: plan_peers,
        connections,
    }
}

} // verus!
