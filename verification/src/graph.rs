//! Connection graphs over peer ids.
//!
//! Graphs are directed to record which side of a connection dials: an edge
//! `u -> v` means `u` calls connect and `v` listens. For connectivity the
//! edges are read as undirected: the two-vertex graph with the single edge
//! `a -> b` is complete.

use vstd::prelude::*;
use vstd::string::StringExecFns;
use crate::types::PeerId;

verus! {

/// One vertex with its outgoing edges.
#[derive(Debug)]
pub struct PeerEntry {
    pub id: PeerId,
    pub neighbors: Vec<PeerId>,
}

impl PeerEntry {
    /// The outgoing edges as a sequence of id values.
    pub open spec fn nbs(self) -> Seq<Seq<char>> {
        self.neighbors.deep_view()
    }

    /// A vertex with no outgoing edges yet.
    pub fn new(id: PeerId) -> (r: Self)
        ensures
            r.id@ == id@,
            r.nbs() == Seq::<Seq<char>>::empty(),
    {
        PeerEntry { id, neighbors: Vec::new() }
    }

    /// Number of outgoing edges.
    pub fn degree(&self) -> (r: usize)
        ensures
            r == self.nbs().len(),
    {
        self.neighbors.len()
    }
}

impl Clone for PeerEntry {
    fn clone(&self) -> (r: Self)
        ensures
            r.id@ == self.id@,
            r.nbs() == self.nbs(),
    {
        let neighbors = self.neighbors.clone();
        proof {
            assert forall|i: int| 0 <= i < neighbors@.len() implies neighbors.deep_view()[i]
                == self.nbs()[i] by {
                assert(cloned::<String>(self.neighbors[i], neighbors[i]));
            }
            assert(neighbors.deep_view() =~= self.nbs());
        }
        PeerEntry { id: self.id.clone(), neighbors }
    }
}

/// Adjacency map from each peer id to the set of peer ids it dials.
#[derive(Debug)]
pub struct PeerGraph {
    pub nmap: Vec<PeerEntry>,
}

impl PeerGraph {
    /// The vertex ids, in insertion order.
    pub open spec fn keys(self) -> Seq<Seq<char>> {
        self.nmap@.map_values(|e: PeerEntry| e.id@)
    }

    /// Whether `u` is a vertex.
    pub open spec fn contains_key(self, u: Seq<char>) -> bool {
        self.keys().contains(u)
    }

    /// Whether the directed edge `u -> v` is present.
    pub open spec fn edge(self, u: Seq<char>, v: Seq<char>) -> bool {
        exists|i: int|
            0 <= i < self.nmap@.len() && (#[trigger] self.nmap@[i]).id@ == u
                && self.nmap@[i].nbs().contains(v)
    }

    /// The neighbors of `u` in the undirected reading of the graph.
    pub open spec fn undirected(self, u: Seq<char>) -> Set<Seq<char>> {
        Set::new(|v: Seq<char>| self.edge(u, v) || self.edge(v, u))
    }

    /// Every id is a key at most once, every neighbor is itself a key, and
    /// no neighbor is listed twice by one vertex.
    pub open spec fn wf(self) -> bool {
        &&& forall|i: int, j: int|
            0 <= i < j < self.nmap@.len() ==> (#[trigger] self.nmap@[i]).id@
                != (#[trigger] self.nmap@[j]).id@
        &&& forall|i: int, v: Seq<char>|
            0 <= i < self.nmap@.len() && #[trigger] self.nmap@[i].nbs().contains(v)
                ==> self.contains_key(v)
        &&& forall|i: int, j: int, k: int|
            0 <= i < self.nmap@.len() && 0 <= j < k < self.nmap@[i].nbs().len() ==> #[trigger] self
                .nmap@[i].nbs()[j] != #[trigger] self.nmap@[i].nbs()[k]
    }

    /// The empty graph.
    pub fn new() -> (r: Self)
        ensures
            r.nmap@.len() == 0,
            r.wf(),
    {
        PeerGraph { nmap: Vec::new() }
    }

    /// Index of the entry for `id`, if `id` is a vertex.
    fn find_entry(&self, id: &PeerId) -> (r: Option<usize>)
        ensures
            match r {
                Some(i) => i < self.nmap@.len() && self.nmap@[i as int].id@ == id@,
                None => !self.contains_key(id@),
            },
    {
        let mut i: usize = 0;
        while i < self.nmap.len()
            invariant
                i <= self.nmap@.len(),
                forall|j: int| 0 <= j < i ==> (#[trigger] self.nmap@[j]).id@ != id@,
            decreases self.nmap@.len() - i,
        {
            if self.nmap[i].id == *id {
                return Some(i);
            }
            i = i + 1;
        }
        proof {
            assert(forall|j: int|
                0 <= j < self.keys().len() ==> self.keys()[j] == (#[trigger] self.nmap@[j]).id@);
        }
        None
    }

    /// Position of the entry for `u` among the vertices.
    pub open spec fn index_of(self, u: Seq<char>) -> int {
        choose|i: int| 0 <= i < self.nmap@.len() && (#[trigger] self.nmap@[i]).id@ == u
    }

    /// Whether `id` is a vertex.
    pub fn has_vertex(&self, id: &PeerId) -> (r: bool)
        ensures
            r == self.contains_key(id@),
    {
        proof {
            if self.contains_key(id@) {
                let j = choose|j: int|
                    0 <= j < self.keys().len() && self.keys()[j] == id@;
                assert(self.nmap@[j].id@ == id@);
            }
        }
        match self.find_entry(id) {
            Some(i) => {
                proof {
                    assert(self.keys()[i as int] == id@);
                }
                true
            },
            None => false,
        }
    }

    /// Position of the entry for `id`, if `id` is a vertex.
    pub fn position_of(&self, id: &PeerId) -> (r: Option<usize>)
        requires
            self.wf(),
        ensures
            r is Some <==> self.contains_key(id@),
            r matches Some(i) ==> i < self.nmap@.len() && self.nmap@[i as int].id@ == id@
                && self.index_of(id@) == i,
    {
        proof {
            if self.contains_key(id@) {
                let j = choose|j: int|
                    0 <= j < self.keys().len() && self.keys()[j] == id@;
                assert(self.nmap@[j].id@ == id@);
            }
        }
        match self.find_entry(id) {
            Some(i) => {
                proof {
                    assert(self.keys()[i as int] == id@);
                    let k = self.index_of(id@);
                    assert(self.nmap@[k].id@ == id@);
                    if k != i as int {
                        assert(false);
                    }
                }
                Some(i)
            },
            None => None,
        }
    }

    /// The neighbors of `vertex` when each directed edge is read as
    /// undirected: everything `vertex` dials plus everything that dials it.
    /// Returns `None` exactly when `vertex` is not a key.
    pub fn undirected_links(&self, vertex: &PeerId) -> (r: Option<Vec<PeerId>>)
        requires
            self.wf(),
        ensures
            r is Some <==> self.contains_key(vertex@),
            match r {
                Some(vs) => {
                    &&& forall|w: Seq<char>|
                        vs.deep_view().contains(w) <==> self.undirected(vertex@).contains(w)
                    &&& forall|j: int, k: int|
                        0 <= j < k < vs.deep_view().len() ==> vs.deep_view()[j]
                            != vs.deep_view()[k]
                },
                None => true,
            },
    {
        broadcast use vstd::seq_lib::lemma_seq_contains_after_push;

        let own = match self.find_entry(vertex) {
            None => {
                return None;
            },
            Some(i) => i,
        };
        let ghost g = *self;
        proof {
            assert(g.keys()[own as int] == vertex@);
        }
        let mut vs: Vec<PeerId> = self.nmap[own].clone().neighbors;
        proof {
            assert forall|w: Seq<char>| vs.deep_view().contains(w) implies g.edge(vertex@, w) by {
                assert(g.nmap@[own as int].nbs().contains(w));
            }
        }
        let mut i: usize = 0;
        while i < self.nmap.len()
            invariant
                g == *self,
                g.wf(),
                i <= g.nmap@.len(),
                own < g.nmap@.len(),
                g.nmap@[own as int].id@ == vertex@,
                forall|w: Seq<char>|
                    vs.deep_view().contains(w) ==> g.edge(vertex@, w) || g.edge(w, vertex@),
                forall|w: Seq<char>| g.edge(vertex@, w) ==> vs.deep_view().contains(w),
                forall|j: int|
                    0 <= j < i && (#[trigger] g.nmap@[j]).nbs().contains(vertex@)
                        ==> vs.deep_view().contains(g.nmap@[j].id@),
                forall|j: int, k: int|
                    0 <= j < k < vs.deep_view().len() ==> vs.deep_view()[j] != vs.deep_view()[k],
            decreases g.nmap@.len() - i,
        {
            let dials_vertex = contains_id(&self.nmap[i].neighbors, vertex);
            let already = contains_id(&vs, &self.nmap[i].id);
            let ghost dv0 = vs.deep_view();
            if dials_vertex && !already {
                vs.push(self.nmap[i].id.clone());
                proof {
                    let nid = g.nmap@[i as int].id@;
                    assert(vs.deep_view() =~= dv0.push(nid));
                    assert(g.edge(nid, vertex@));
                    assert forall|w: Seq<char>| #[trigger] vs.deep_view().contains(w) implies g.edge(
                        vertex@,
                        w,
                    ) || g.edge(w, vertex@) by {
                        vstd::seq_lib::lemma_seq_contains_after_push(dv0, nid, w);
                    }
                    assert forall|w: Seq<char>| #[trigger] g.edge(vertex@, w) implies vs.deep_view()
                        .contains(w) by {
                        vstd::seq_lib::lemma_seq_contains_after_push(dv0, nid, w);
                    }
                    assert forall|j: int|
                        0 <= j < i + 1 && (#[trigger] g.nmap@[j]).nbs().contains(vertex@) implies vs
                        .deep_view().contains(g.nmap@[j].id@) by {
                        vstd::seq_lib::lemma_seq_contains_after_push(dv0, nid, g.nmap@[j].id@);
                    }
                }
            } else {
                proof {
                    if g.nmap@[i as int].nbs().contains(vertex@) {
                        assert(g.edge(g.nmap@[i as int].id@, vertex@));
                        assert(vs.deep_view().contains(g.nmap@[i as int].id@));
                    }
                }
            }
            i = i + 1;
        }
        proof {
            assert forall|w: Seq<char>| g.undirected(vertex@).contains(w) implies vs.deep_view()
                .contains(w) by {
                if g.edge(w, vertex@) && !g.edge(vertex@, w) {
                    let j = choose|j: int|
                        0 <= j < g.nmap@.len() && (#[trigger] g.nmap@[j]).id@ == w && g.nmap@[j]
                            .nbs().contains(vertex@);
                    assert(vs.deep_view().contains(g.nmap@[j].id@));
                }
            }
        }
        Some(vs)
    }
}

/// No id occurs twice.
pub open spec fn distinct_ids(s: Seq<Seq<char>>) -> bool {
    forall|i: int, j: int| 0 <= i < j < s.len() ==> s[i] != s[j]
}

/// The shape [`complete_graph`] produces: each vertex dials exactly the
/// vertices inserted before it.
pub open spec fn complete_shape(g: PeerGraph) -> bool {
    forall|i: int| 0 <= i < g.nmap@.len() ==> (#[trigger] g.nmap@[i]).nbs() == g.keys().take(i)
}

/// The complete graph over the given ids, with exactly one directed edge
/// for each unordered pair: vertices are inserted in descending id order,
/// each dialing every vertex already present.
pub fn complete_graph(peers: &Vec<PeerId>) -> (g: PeerGraph)
    requires
        distinct_ids(peers.deep_view()),
    ensures
        g.wf(),
        g.keys().to_multiset() == peers.deep_view().to_multiset(),
        crate::strutil::sorted_desc(g.keys()),
        complete_shape(g),
{
    let sorted = crate::strutil::sort_desc(crate::strutil::clone_ids(peers));
    proof {
        lemma_multiset_eq_distinct(peers.deep_view(), sorted.deep_view());
    }
    let mut nmap: Vec<PeerEntry> = Vec::new();
    let mut i: usize = 0;
    while i < sorted.len()
        invariant
            i <= sorted@.len(),
            distinct_ids(sorted.deep_view()),
            nmap@.len() == i,
            forall|k: int| 0 <= k < i ==> (#[trigger] nmap@[k]).id@ == sorted.deep_view()[k],
            forall|k: int|
                0 <= k < i ==> (#[trigger] nmap@[k]).nbs() == sorted.deep_view().take(k),
        decreases sorted@.len() - i,
    {
        let neighbors = crate::strutil::clone_id_prefix(&sorted, i);
        let e = PeerEntry { id: sorted[i].clone(), neighbors };
        nmap.push(e);
        i = i + 1;
    }
    let g = PeerGraph { nmap };
    proof {
        assert(g.keys() =~= sorted.deep_view());
        assert forall|i2: int, v: Seq<char>|
            0 <= i2 < g.nmap@.len() && #[trigger] g.nmap@[i2].nbs().contains(v) implies g
            .contains_key(v) by {
            let j = choose|j: int|
                0 <= j < g.nmap@[i2].nbs().len() && g.nmap@[i2].nbs()[j] == v;
            assert(g.keys()[j] == v);
        }
    }
    g
}

/// Two id sequences with the same multiset are distinct together.
proof fn lemma_multiset_eq_distinct(a: Seq<Seq<char>>, b: Seq<Seq<char>>)
    requires
        distinct_ids(a),
        a.to_multiset() == b.to_multiset(),
    ensures
        distinct_ids(b),
{
    broadcast use vstd::seq_lib::group_to_multiset_ensures;

    assert(a.no_duplicates());
    a.lemma_multiset_has_no_duplicates();
    b.lemma_multiset_has_no_duplicates_conv();
    assert(b.no_duplicates());
}

/// In a complete graph every unordered pair of distinct vertices is joined
/// by exactly one directed edge.
pub proof fn lemma_complete_graph_pair(g: PeerGraph, u: Seq<char>, v: Seq<char>)
    requires
        g.wf(),
        complete_shape(g),
        g.contains_key(u),
        g.contains_key(v),
        u != v,
    ensures
        g.edge(u, v) || g.edge(v, u),
        !(g.edge(u, v) && g.edge(v, u)),
{
    let i = choose|i: int| 0 <= i < g.keys().len() && g.keys()[i] == u;
    let j = choose|j: int| 0 <= j < g.keys().len() && g.keys()[j] == v;
    assert(g.nmap@[i].id@ == u);
    assert(g.nmap@[j].id@ == v);
    if i < j {
        assert(g.nmap@[j].nbs()[i] == u);
        assert(g.edge(v, u));
    } else {
        assert(g.nmap@[i].nbs()[j] == v);
        assert(g.edge(u, v));
    }
    assert forall|p: int, q: int|
        0 <= p < g.nmap@.len() && 0 <= q < g.nmap@.len() && g.nmap@[p].id@ == u && #[trigger] g
            .nmap@[p].nbs().contains(v) && g.nmap@[q].id@ == v && #[trigger] g.nmap@[q]
            .nbs().contains(u) implies false by {
        assert(p == i && q == j);
        let x = choose|x: int| 0 <= x < g.nmap@[p].nbs().len() && g.nmap@[p].nbs()[x] == v;
        assert(g.keys()[x] == v);
        let y = choose|y: int| 0 <= y < g.nmap@[q].nbs().len() && g.nmap@[q].nbs()[y] == u;
        assert(g.keys()[y] == u);
        assert(x == j && y == i);
        assert(x < p && y < q);
    }
}

/// Two graphs with the same vertices in the same order, each with the
/// same outgoing edges.
pub open spec fn graph_like(a: PeerGraph, b: PeerGraph) -> bool {
    &&& a.nmap@.len() == b.nmap@.len()
    &&& forall|i: int|
        0 <= i < a.nmap@.len() ==> (#[trigger] a.nmap@[i]).id@ == (#[trigger] b.nmap@[i]).id@
            && a.nmap@[i].nbs() == b.nmap@[i].nbs()
}

/// Well-formedness carries across alike graphs.
proof fn lemma_graph_like_wf(a: PeerGraph, b: PeerGraph)
    requires
        graph_like(a, b),
        a.wf(),
    ensures
        b.wf(),
{
    assert(a.keys() =~= b.keys());
    assert forall|i: int, v: Seq<char>|
        0 <= i < b.nmap@.len() && #[trigger] b.nmap@[i].nbs().contains(v) implies b.contains_key(
        v,
    ) by {
        assert(a.nmap@[i].nbs() == b.nmap@[i].nbs());
        assert(a.nmap@[i].nbs().contains(v));
        assert(a.contains_key(v));
    }
    assert forall|i: int, j: int, k: int|
        0 <= i < b.nmap@.len() && 0 <= j < k < b.nmap@[i].nbs().len() implies #[trigger] b.nmap@[i].nbs()[j]
        != #[trigger] b.nmap@[i].nbs()[k] by {
        assert(a.nmap@[i].nbs() == b.nmap@[i].nbs());
        assert(a.nmap@[i].nbs()[j] != a.nmap@[i].nbs()[k]);
    }
    assert forall|i: int, j: int|
        0 <= i < j < b.nmap@.len() implies (#[trigger] b.nmap@[i]).id@ != (
        #[trigger] b.nmap@[j]).id@ by {
        assert(a.nmap@[i].id@ != a.nmap@[j].id@);
    }
}

impl Clone for PeerGraph {
    fn clone(&self) -> (r: Self)
        ensures
            graph_like(*self, r),
            self.wf() ==> r.wf(),
    {
        let mut nmap: Vec<PeerEntry> = Vec::new();
        let mut i: usize = 0;
        while i < self.nmap.len()
            invariant
                i <= self.nmap@.len(),
                nmap@.len() == i,
                forall|j: int|
                    0 <= j < i ==> (#[trigger] nmap@[j]).id@ == (#[trigger] self.nmap@[j]).id@
                        && nmap@[j].nbs() == self.nmap@[j].nbs(),
            decreases self.nmap@.len() - i,
        {
            nmap.push(self.nmap[i].clone());
            i = i + 1;
        }
        let r = PeerGraph { nmap };
        proof {
            if self.wf() {
                lemma_graph_like_wf(*self, r);
            }
        }
        r
    }
}

/// One DOT edge line, nodes shortened for display.
pub open spec fn dot_line(u: Seq<char>, v: Seq<char>) -> Seq<char> {
    "  "@ + crate::strutil::spec_short_peer(u) + " -> "@ + crate::strutil::spec_short_peer(v)
        + ";\n"@
}

/// The DOT edge lines of one vertex, in neighbor order.
pub open spec fn dot_entry(id: Seq<char>, nbs: Seq<Seq<char>>) -> Seq<char>
    decreases nbs.len(),
{
    if nbs.len() == 0 {
        Seq::empty()
    } else {
        dot_entry(id, nbs.drop_last()) + dot_line(id, nbs.last())
    }
}

/// The DOT edge lines of a list of vertices, in vertex order.
pub open spec fn dot_entries(entries: Seq<PeerEntry>) -> Seq<char>
    decreases entries.len(),
{
    if entries.len() == 0 {
        Seq::empty()
    } else {
        dot_entries(entries.drop_last()) + dot_entry(
            entries.last().id@,
            entries.last().nbs(),
        )
    }
}

/// The whole DOT document for a graph.
pub open spec fn dot_of(g: PeerGraph) -> Seq<char> {
    "digraph G {\n"@ + dot_entries(g.nmap@) + "}\n"@
}

impl PeerGraph {
    /// Render the graph as a DOT directed graph, one `u -> v;` line per
    /// edge, nodes shortened to their display form.
    pub fn to_dot(&self) -> (r: String)
        requires
            self.wf(),
            forall|k: int|
                0 <= k < self.keys().len() ==> crate::strutil::shortenable(
                    #[trigger] self.keys()[k],
                ),
        ensures
            r@ == dot_of(*self),
    {
        let mut dot = String::new();
        dot.append("digraph G {\n");
        let mut i: usize = 0;
        while i < self.nmap.len()
            invariant
                self.wf(),
                forall|k: int|
                    0 <= k < self.keys().len() ==> crate::strutil::shortenable(
                        #[trigger] self.keys()[k],
                    ),
                i <= self.nmap@.len(),
                dot@ == "digraph G {\n"@ + dot_entries(self.nmap@.take(i as int)),
            decreases self.nmap@.len() - i,
        {
            proof {
                assert(self.keys()[i as int] == self.nmap@[i as int].id@);
            }
            let short_u = crate::strutil::short_peer_id(&self.nmap[i].id);
            let ghost entry = self.nmap@[i as int];
            let mut j: usize = 0;
            while j < self.nmap[i].neighbors.len()
                invariant
                    self.wf(),
                    forall|k: int|
                        0 <= k < self.keys().len() ==> crate::strutil::shortenable(
                            #[trigger] self.keys()[k],
                        ),
                    i < self.nmap@.len(),
                    entry == self.nmap@[i as int],
                    j <= entry.nbs().len(),
                    short_u@ == crate::strutil::spec_short_peer(entry.id@),
                    dot@ == "digraph G {\n"@ + dot_entries(self.nmap@.take(i as int)) + dot_entry(
                        entry.id@,
                        entry.nbs().take(j as int),
                    ),
                decreases entry.nbs().len() - j,
            {
                let ghost w = entry.nbs()[j as int];
                proof {
                    assert(entry.nbs().contains(w));
                    assert(self.contains_key(w));
                    let k = choose|k: int|
                        0 <= k < self.keys().len() && self.keys()[k] == w;
                    assert(crate::strutil::shortenable(w));
                    assert(self.nmap@[i as int].neighbors@[j as int]@ == w);
                }
                let short_v = crate::strutil::short_peer_id(&self.nmap[i].neighbors[j]);
                let ghost dot0 = dot@;
                dot.append("  ");
                dot.append(short_u.as_str());
                dot.append(" -> ");
                dot.append(short_v.as_str());
                dot.append(";\n");
                proof {
                    assert(dot@ =~= dot0 + dot_line(entry.id@, w));
                    assert(entry.nbs().take(j + 1).drop_last() =~= entry.nbs().take(j as int));
                    assert(entry.nbs().take(j + 1).last() == w);
                    assert(dot@ =~= "digraph G {\n"@ + dot_entries(self.nmap@.take(i as int))
                        + dot_entry(entry.id@, entry.nbs().take(j + 1)));
                }
                j = j + 1;
            }
            proof {
                assert(entry.nbs().take(entry.nbs().len() as int) =~= entry.nbs());
                assert(self.nmap@.take(i + 1).drop_last() =~= self.nmap@.take(i as int));
                assert(self.nmap@.take(i + 1).last() == entry);
                assert(dot@ =~= "digraph G {\n"@ + dot_entries(self.nmap@.take(i + 1)));
            }
            i = i + 1;
        }
        dot.append("}\n");
        proof {
            assert(self.nmap@.take(self.nmap@.len() as int) =~= self.nmap@);
            assert(dot@ =~= dot_of(*self));
        }
        dot
    }
}

/// The smaller of two integers.
pub open spec fn imin(a: int, b: int) -> int {
    if a <= b {
        a
    } else {
        b
    }
}

/// The shape [`spanning_tree`] produces over the ascending arrangement
/// `asc` of the input ids: vertices stand in ascending order, and vertex
/// `k` dials the block of up to `d` ids starting at position `k*d + 1`.
/// With `d == 0` only the root is ever placed.
pub open spec fn tree_shape(g: PeerGraph, asc: Seq<Seq<char>>, d: int) -> bool {
    let n = asc.len() as int;
    let m = g.nmap@.len() as int;
    &&& m == (if n == 0 {
        0int
    } else if d >= 1 {
        n
    } else {
        1int
    })
    &&& g.keys() == asc.take(m)
    &&& forall|k: int|
        0 <= k < m ==> (#[trigger] g.nmap@[k]).nbs() == asc.subrange(
            imin(k * d + 1, m),
            imin(k * d + 1 + d, m),
        )
}

/// A spanning tree over the given ids with out-degree at most
/// `max_degree`: the smallest id becomes the root, and ids are attached in
/// ascending order, breadth first, each new vertex dialed by the earliest
/// vertex that still has capacity.
pub fn spanning_tree(peers: &Vec<PeerId>, max_degree: usize) -> (g: PeerGraph)
    requires
        distinct_ids(peers.deep_view()),
    ensures
        g.wf(),
        exists|asc: Seq<Seq<char>>|
            crate::strutil::sorted_asc(asc) && asc.to_multiset() == peers.deep_view().to_multiset()
                && #[trigger] tree_shape(g, asc, max_degree as int),
{
    let dsc = crate::strutil::sort_desc(crate::strutil::clone_ids(peers));
    let ghost asc = dsc.deep_view().reverse();
    let ghost n = asc.len() as int;
    let ghost d = max_degree as int;
    proof {
        lemma_multiset_eq_distinct(peers.deep_view(), dsc.deep_view());
        dsc.deep_view().lemma_reverse_to_multiset();
        assert forall|i: int, j: int| 0 <= i < j < n implies crate::strutil::lex_le(
            asc[i],
            asc[j],
        ) by {
            assert(asc[i] == dsc.deep_view()[n - 1 - i]);
            assert(asc[j] == dsc.deep_view()[n - 1 - j]);
        }
        assert(distinct_ids(asc));
        assert(asc.skip(0) =~= asc);
    }
    let mut rest = dsc;
    let mut nmap: Vec<PeerEntry> = Vec::new();
    if rest.len() == 0 {
        let g = PeerGraph { nmap };
        proof {
            assert(g.keys() =~= asc.take(0));
            assert(tree_shape(g, asc, d));
        }
        return g;
    }
    proof {
        assert(rest.deep_view().last() == asc.skip(0).reverse()[n - 1]);
        assert(rest.deep_view().last() == asc[0]);
    }
    let root = rest.pop().unwrap();
    nmap.push(PeerEntry::new(root));
    proof {
        assert(rest.deep_view() =~= asc.skip(1).reverse());
    }
    let mut k: usize = 0;
    while k < nmap.len()
        invariant
            n == asc.len(),
            d == max_degree as int,
            n > 0,
            distinct_ids(asc),
            k <= nmap@.len() <= n,
            nmap@.len() == imin(k * d + 1, n),
            forall|e: int| 0 <= e < nmap@.len() ==> (#[trigger] nmap@[e]).id@ == asc[e],
            forall|e: int|
                0 <= e < k ==> (#[trigger] nmap@[e]).nbs() == asc.subrange(
                    imin(e * d + 1, n),
                    imin(e * d + 1 + d, n),
                ),
            forall|e: int|
                k <= e < nmap@.len() ==> (#[trigger] nmap@[e]).nbs() == Seq::<Seq<char>>::empty(),
            rest.deep_view() == asc.skip(nmap@.len() as int).reverse(),
        decreases n - k,
    {
        let ghost len0 = nmap@.len() as int;
        let mut children: Vec<PeerId> = Vec::new();
        while children.len() < max_degree && rest.len() > 0
            invariant
                n == asc.len(),
                d == max_degree as int,
                distinct_ids(asc),
                k < len0 <= nmap@.len() <= n,
                nmap@.len() == len0 + children@.len(),
                children@.len() <= d,
                children.deep_view() == asc.subrange(len0, nmap@.len() as int),
                forall|e: int| 0 <= e < nmap@.len() ==> (#[trigger] nmap@[e]).id@ == asc[e],
                forall|e: int|
                    0 <= e < k ==> (#[trigger] nmap@[e]).nbs() == asc.subrange(
                        imin(e * d + 1, n),
                        imin(e * d + 1 + d, n),
                    ),
                forall|e: int|
                    k <= e < nmap@.len() ==> (#[trigger] nmap@[e]).nbs()
                        == Seq::<Seq<char>>::empty(),
                rest.deep_view() == asc.skip(nmap@.len() as int).reverse(),
            decreases rest@.len(),
        {
            let ghost len_cur = nmap@.len() as int;
            let ghost rdv = rest.deep_view();
            proof {
                assert(rdv.last() == asc.skip(len_cur).reverse()[n - len_cur - 1]);
                assert(rdv.last() == asc[len_cur]);
            }
            let c = rest.pop().unwrap();
            proof {
                assert(rest.deep_view() =~= rdv.take(rdv.len() - 1));
                assert(rest.deep_view() =~= asc.skip(len_cur + 1).reverse());
            }
            let ghost cdv = children.deep_view();
            children.push(c.clone());
            nmap.push(PeerEntry::new(c));
            proof {
                assert(children.deep_view() =~= cdv.push(asc[len_cur]));
                assert(children.deep_view() =~= asc.subrange(len0, len_cur + 1));
            }
        }
        let ghost t = children@.len() as int;
        let id_k = nmap[k].id.clone();
        let ghost pre = nmap@;
        nmap.set(k, PeerEntry { id: id_k, neighbors: children });
        k = k + 1;
        proof {
            assert((k - 1) * d + 1 + d == k * d + 1) by (nonlinear_arith);
            assert(len0 == imin((k - 1) * d + 1, n));
            if t < d {
                assert(rest.deep_view().len() == 0);
                assert(len0 + t == n);
            }
            assert(len0 + t == imin((k - 1) * d + 1 + d, n));
            assert(nmap@[k - 1].nbs() =~= asc.subrange(
                imin((k - 1) * d + 1, n),
                imin((k - 1) * d + 1 + d, n),
            ));
            assert(forall|e: int| 0 <= e < nmap@.len() && e != k - 1 ==> nmap@[e] == pre[e]);
            assert(imin(k * d + 1, n) >= imin((k - 1) * d + 1, n)) by (nonlinear_arith)
                requires
                    d >= 0,
                    n >= 0,
            ;
        }
    }
    let g = PeerGraph { nmap };
    proof {
        let m = g.nmap@.len() as int;
        assert(m == imin(k as int * d + 1, n));
        if d >= 1 && m < n {
            assert(m == k as int * d + 1);
            assert(k as int * d >= k as int) by (nonlinear_arith)
                requires
                    d >= 1,
                    k as int >= 0,
            ;
            assert(false);
        }
        assert(g.keys() =~= asc.take(m));
        assert forall|e: int| 0 <= e < m implies (#[trigger] g.nmap@[e]).nbs() == asc.subrange(
            imin(e * d + 1, m),
            imin(e * d + 1 + d, m),
        ) by {
            assert(g.nmap@[e].nbs() == asc.subrange(imin(e * d + 1, n), imin(e * d + 1 + d, n)));
            if d >= 1 {
                assert(m == n);
            } else {
                assert(m == 1);
                assert(e == 0);
                assert(imin(e * d + 1, n) == 1 && imin(e * d + 1 + d, n) == 1);
                assert(asc.subrange(1, 1) =~= asc.subrange(imin(1, m), imin(1, m)));
            }
        }
        assert(tree_shape(g, asc, d));
        // well-formedness: keys are a distinct prefix of asc and every
        // neighbor block lies inside that prefix
        assert forall|i: int, v: Seq<char>|
            0 <= i < g.nmap@.len() && #[trigger] g.nmap@[i].nbs().contains(v) implies g
            .contains_key(v) by {
            let x = choose|x: int| 0 <= x < g.nmap@[i].nbs().len() && g.nmap@[i].nbs()[x] == v;
            assert(g.nmap@[i].nbs()[x] == asc[imin(i * d + 1, m) + x]);
            assert(g.keys()[imin(i * d + 1, m) + x] == v);
        }
        assert forall|i: int, j1: int, j2: int|
            0 <= i < g.nmap@.len() && 0 <= j1 < j2 < g.nmap@[i].nbs().len() implies g.nmap@[i].nbs()[j1]
            != g.nmap@[i].nbs()[j2] by {
            assert(g.nmap@[i].nbs()[j1] == asc[imin(i * d + 1, m) + j1]);
            assert(g.nmap@[i].nbs()[j2] == asc[imin(i * d + 1, m) + j2]);
        }
    }
    g
}

/// What [`tree_shape`] gives for a positive degree bound: every input id
/// is a vertex exactly once, no vertex dials more than `d` others, and the
/// undirected projection is a tree — every vertex except the root
/// `asc[0]` is dialed by exactly one vertex, namely the one at position
/// `(j - 1) / d`, which stands strictly earlier in the order. Each vertex
/// is therefore connected to the root by a strictly descending chain, and
/// with exactly one edge per non-root vertex no cycle can close.
pub proof fn lemma_spanning_tree_props(g: PeerGraph, asc: Seq<Seq<char>>, d: int)
    requires
        distinct_ids(asc),
        tree_shape(g, asc, d),
        d >= 1,
    ensures
        g.keys() == asc,
        forall|k: int| 0 <= k < g.nmap@.len() ==> (#[trigger] g.nmap@[k]).nbs().len() <= d,
        forall|j: int|
            1 <= j < asc.len() ==> #[trigger] g.edge(asc[(j - 1) / d], asc[j]) && (j - 1) / d < j,
        forall|u: Seq<char>, v: Seq<char>|
            #[trigger] g.edge(u, v) ==> exists|j: int|
                1 <= j < asc.len() && v == #[trigger] asc[j] && u == asc[(j - 1) / d],
{
    let n = asc.len() as int;
    assert(g.keys() =~= asc);
    assert forall|j: int| 1 <= j < n implies #[trigger] g.edge(asc[(j - 1) / d], asc[j]) && (j - 1)
        / d < j by {
        let p = (j - 1) / d;
        vstd::arithmetic::div_mod::lemma_fundamental_div_mod(j - 1, d);
        assert(j - 1 == p * d + ((j - 1) % d));
        assert(p * d <= j - 1 < p * d + d);
        assert(p >= 0) by (nonlinear_arith)
            requires
                d >= 1,
                p * d + d >= 1,
        ;
        assert(p <= p * d) by (nonlinear_arith)
            requires
                d >= 1,
                p >= 0,
        ;
        assert(p < j);
        assert(imin(p * d + 1, n) == p * d + 1);
        let x = j - (p * d + 1);
        assert(g.nmap@[p].nbs() == asc.subrange(p * d + 1, imin(p * d + 1 + d, n)));
        assert(g.nmap@[p].nbs()[x] == asc[j]);
        assert(g.nmap@[p].id@ == asc[p]);
    }
    assert forall|u: Seq<char>, v: Seq<char>| #[trigger] g.edge(u, v) implies exists|j: int|
        1 <= j < asc.len() && v == #[trigger] asc[j] && u == asc[(j - 1) / d] by {
        let i = choose|i: int|
            0 <= i < g.nmap@.len() && (#[trigger] g.nmap@[i]).id@ == u && g.nmap@[i].nbs().contains(
                v,
            );
        let x = choose|x: int| 0 <= x < g.nmap@[i].nbs().len() && g.nmap@[i].nbs()[x] == v;
        let j = imin(i * d + 1, n) + x;
        assert(v == asc[j]);
        assert(i * d + 1 <= j < i * d + 1 + d);
        vstd::arithmetic::div_mod::lemma_fundamental_div_mod_converse(j - 1, d, i, j - 1 - i * d);
        assert(u == asc[(j - 1) / d]);
        assert(j >= 1);
    }
}

/// Both endpoints of an edge of a well-formed graph are keys.
pub proof fn lemma_edge_endpoints(g: PeerGraph)
    requires
        g.wf(),
    ensures
        forall|u: Seq<char>, v: Seq<char>|
            #[trigger] g.edge(u, v) ==> g.contains_key(u) && g.contains_key(v),
{
    assert forall|u: Seq<char>, v: Seq<char>| #[trigger] g.edge(u, v) implies g.contains_key(u)
        && g.contains_key(v) by {
        let i = choose|i: int|
            0 <= i < g.nmap@.len() && (#[trigger] g.nmap@[i]).id@ == u && g.nmap@[i].nbs().contains(
                v,
            );
        assert(g.keys()[i] == u);
    }
}

/// No vertex of `g` is isolated in the undirected reading.
pub open spec fn no_isolated_vertex(g: PeerGraph) -> bool {
    forall|u: Seq<char>|
        g.contains_key(u) ==> exists|w: Seq<char>| #[trigger] g.undirected(u).contains(w)
}

/// The local-preferential-attachment graph: a seed clique of the first `m`
/// ids, then each remaining id `v` picks a random existing vertex `r` and
/// dials members of `r`'s neighborhood with probability proportional to
/// their undirected degree, falling back to the single edge `v -> r` when
/// chance selects none. Every input id becomes a vertex exactly once, and
/// once two or more vertices exist no vertex is isolated.
pub fn local_attachment_model(peers: &Vec<PeerId>, m: usize) -> (g: PeerGraph)
    requires
        distinct_ids(peers.deep_view()),
        1 <= m <= peers@.len(),
        peers@.len() <= u32::MAX,
    ensures
        g.wf(),
        g.keys().to_multiset() == peers.deep_view().to_multiset(),
        peers@.len() >= 2 ==> no_isolated_vertex(g),
{
    broadcast use vstd::seq_lib::group_to_multiset_ensures;

    let seed_ids = crate::strutil::clone_id_prefix(peers, m);
    let mut g = complete_graph(&seed_ids);
    let ghost pdv = peers.deep_view();
    proof {
        assert(pdv.take(m as int) =~= seed_ids.deep_view());
        assert(g.keys().to_multiset().len() == pdv.take(m as int).to_multiset().len());
        assert(g.nmap@.len() == m);
        if m >= 2 {
            assert forall|u: Seq<char>| g.contains_key(u) implies exists|w: Seq<char>|
                #[trigger] g.undirected(u).contains(w) by {
                let i = choose|i: int| 0 <= i < g.keys().len() && g.keys()[i] == u;
                if i == 0 {
                    assert(g.nmap@[1].nbs() == g.keys().take(1));
                    assert(g.nmap@[1].nbs()[0] == u);
                    assert(g.edge(g.keys()[1], u));
                    assert(g.undirected(u).contains(g.keys()[1]));
                } else {
                    assert(g.nmap@[i].nbs() == g.keys().take(i));
                    assert(g.nmap@[i].nbs()[0] == g.keys()[0]);
                    assert(g.edge(u, g.keys()[0]));
                    assert(g.undirected(u).contains(g.keys()[0]));
                }
            }
        }
    }
    let mut i: usize = m;
    while i < peers.len()
        invariant
            distinct_ids(pdv),
            pdv == peers.deep_view(),
            pdv.len() <= u32::MAX,
            m as int <= i as int <= pdv.len(),
            1 <= m,
            g.wf(),
            g.nmap@.len() == i,
            g.keys().to_multiset() == pdv.take(i as int).to_multiset(),
            g.nmap@.len() >= 2 ==> no_isolated_vertex(g),
        decreases pdv.len() - i,
    {
        let ghost g0 = g;
        proof {
            lemma_multiset_eq_distinct(pdv.take(i as int), g.keys());
            lemma_edge_endpoints(g);
        }
        let v = peers[i].clone();
        // pick the random attachment root
        let ri = crate::caps::rand_range_u64(0, g.nmap.len() as u64) as usize;
        let root_id = g.nmap[ri].id.clone();
        proof {
            assert(g.keys()[ri as int] == root_id@);
        }
        // the LAN set: the root's undirected neighborhood plus the root
        let mut lan = g.undirected_links(&root_id).unwrap();
        let ghost ldv0 = lan.deep_view();
        if !contains_id(&lan, &root_id) {
            lan.push(root_id.clone());
            proof {
                assert(lan.deep_view() =~= ldv0.push(root_id@));
            }
        }
        proof {
            broadcast use vstd::seq_lib::lemma_seq_contains_after_push;

            assert forall|x: int, y: int|
                0 <= x < y < lan.deep_view().len() implies lan.deep_view()[x]
                != lan.deep_view()[y] by {
                if y == ldv0.len() {
                    assert(ldv0.contains(ldv0[x]));
                }
            }
            assert forall|x: int| 0 <= x < lan.deep_view().len() implies g.contains_key(
                #[trigger] lan.deep_view()[x],
            ) by {
                let w = lan.deep_view()[x];
                if x < ldv0.len() {
                    assert(ldv0.contains(w));
                    assert(g.undirected(root_id@).contains(w));
                    assert(g.edge(root_id@, w) || g.edge(w, root_id@));
                } else {
                    assert(w == root_id@);
                }
            }
            lemma_distinct_keys_bound(g, lan.deep_view());
        }
        // total undirected degree over the LAN set
        let mut s: u64 = 0;
        let mut j: usize = 0;
        while j < lan.len()
            invariant
                g == g0,
                g.wf(),
                j <= lan@.len(),
                lan@.len() <= g.nmap@.len(),
                forall|x: int|
                    0 <= x < lan.deep_view().len() ==> g.contains_key(
                        #[trigger] lan.deep_view()[x],
                    ),
                g.nmap@.len() <= u32::MAX,
                s <= (j as u64) * (u32::MAX as u64),
            decreases lan@.len() - j,
        {
            proof {
                assert(lan.deep_view()[j as int] == lan@[j as int]@);
            }
            let links = g.undirected_links(&lan[j]).unwrap();
            proof {
                lemma_edge_endpoints(g);
                assert forall|x: int| 0 <= x < links.deep_view().len() implies g.contains_key(
                    #[trigger] links.deep_view()[x],
                ) by {
                    let w = links.deep_view()[x];
                    assert(links.deep_view().contains(w));
                    assert(g.undirected(lan@[j as int]@).contains(w));
                }
                lemma_distinct_keys_bound(g, links.deep_view());
                assert((j as u64 + 1) * (u32::MAX as u64) == (j as u64) * (u32::MAX as u64) + (
                u32::MAX as u64)) by (nonlinear_arith);
            }
            s = s + links.len() as u64;
            j = j + 1;
        }
        // dial LAN members with degree-proportional probability
        let mut v_edges: Vec<PeerId> = Vec::new();
        let mut j2: usize = 0;
        while j2 < lan.len()
            invariant
                g == g0,
                g.wf(),
                j2 <= lan@.len(),
                forall|x: int|
                    0 <= x < lan.deep_view().len() ==> g.contains_key(
                        #[trigger] lan.deep_view()[x],
                    ),
                forall|x: int|
                    0 <= x < v_edges.deep_view().len() ==> g.contains_key(
                        #[trigger] v_edges.deep_view()[x],
                    ),
                forall|x: int, y: int|
                    0 <= x < y < v_edges.deep_view().len() ==> v_edges.deep_view()[x]
                        != v_edges.deep_view()[y],
            decreases lan@.len() - j2,
        {
            proof {
                assert(lan.deep_view()[j2 as int] == lan@[j2 as int]@);
            }
            let w_degree = g.undirected_links(&lan[j2]).unwrap().len() as u64;
            let chosen = s > 0 && crate::caps::rand_range_u64(0, s) < w_degree;
            if chosen && !contains_id(&v_edges, &lan[j2]) {
                let ghost edv = v_edges.deep_view();
                v_edges.push(lan[j2].clone());
                proof {
                    broadcast use vstd::seq_lib::lemma_seq_contains_after_push;

                    assert(v_edges.deep_view() =~= edv.push(lan.deep_view()[j2 as int]));
                }
            }
            j2 = j2 + 1;
        }
        // never leave the new vertex unconnected
        if v_edges.len() == 0 {
            v_edges.push(root_id.clone());
            proof {
                assert(v_edges.deep_view() =~= Seq::<Seq<char>>::empty().push(root_id@));
            }
        }
        let ghost nm0 = g.nmap@;
        let ghost vedv = v_edges.deep_view();
        g.nmap.push(PeerEntry { id: v, neighbors: v_edges });
        proof {
            if nm0.len() == 1 {
                assert forall|x: int| 0 <= x < vedv.len() implies vedv[x] == g0.nmap@[0].id@ by {
                    assert(g0.contains_key(vedv[x]));
                    let y = choose|y: int| 0 <= y < g0.keys().len() && g0.keys()[y] == vedv[x];
                    assert(y == 0);
                }
            }
            lemma_attach_step(g0, g, pdv, i as int, vedv);
        }
        i = i + 1;
    }
    proof {
        assert(pdv.take(pdv.len() as int) =~= pdv);
    }
    g
}

/// A list of distinct keys of `g` is no longer than `g`'s key list.
proof fn lemma_distinct_keys_bound(g: PeerGraph, s: Seq<Seq<char>>)
    requires
        forall|x: int, y: int| 0 <= x < y < s.len() ==> s[x] != s[y],
        forall|x: int| 0 <= x < s.len() ==> g.contains_key(#[trigger] s[x]),
    ensures
        s.len() <= g.nmap@.len(),
{
    broadcast use vstd::seq_lib::seq_to_set_is_finite;

    let keys = g.keys();
    assert(s.no_duplicates());
    s.unique_seq_to_set();
    assert(s.to_set().subset_of(keys.to_set()));
    vstd::set_lib::lemma_len_subset(s.to_set(), keys.to_set());
    keys.lemma_cardinality_of_set();
}

/// Appending one vertex whose distinct neighbors are existing keys keeps
/// the graph well formed, extends the keys by that id, and keeps every
/// vertex of the larger graph non-isolated.
proof fn lemma_attach_step(
    g0: PeerGraph,
    g: PeerGraph,
    pdv: Seq<Seq<char>>,
    i: int,
    vedv: Seq<Seq<char>>,
)
    requires
        g0.wf(),
        distinct_ids(pdv),
        0 <= i < pdv.len(),
        g0.nmap@.len() == i,
        g0.keys().to_multiset() == pdv.take(i).to_multiset(),
        g0.nmap@.len() >= 2 ==> no_isolated_vertex(g0),
        g.nmap@.len() == g0.nmap@.len() + 1,
        forall|k: int| 0 <= k < g0.nmap@.len() ==> g.nmap@[k] == g0.nmap@[k],
        g.nmap@[g.nmap@.len() - 1].id@ == pdv[i],
        g.nmap@[g.nmap@.len() - 1].nbs() == vedv,
        vedv.len() >= 1,
        forall|x: int| 0 <= x < vedv.len() ==> g0.contains_key(#[trigger] vedv[x]),
        forall|x: int, y: int| 0 <= x < y < vedv.len() ==> vedv[x] != vedv[y],
        vedv.len() == 1 ==> (g0.nmap@.len() == 1 ==> vedv[0] == g0.nmap@[0].id@),
    ensures
        g.wf(),
        g.keys().to_multiset() == pdv.take(i + 1).to_multiset(),
        g.nmap@.len() >= 2 ==> no_isolated_vertex(g),
{
    broadcast use vstd::seq_lib::group_to_multiset_ensures;

    let n = g.nmap@.len() as int;
    let vid = pdv[i];
    lemma_multiset_eq_distinct(pdv.take(i), g0.keys());
    // the new id is none of the old keys
    assert forall|k: int| 0 <= k < n - 1 implies (#[trigger] g.nmap@[k]).id@ != vid by {
        assert(g0.keys()[k] == g.nmap@[k].id@);
        assert(pdv.take(i).to_multiset().contains(g0.keys()[k]));
        assert(pdv.take(i).contains(g0.keys()[k]));
        let x = choose|x: int| 0 <= x < i && pdv.take(i)[x] == g0.keys()[k];
        assert(pdv[x] == g0.keys()[k]);
    }
    assert(g.keys() =~= g0.keys().push(vid));
    assert(g.keys().to_multiset() =~= pdv.take(i).to_multiset().insert(vid));
    assert(pdv.take(i + 1) =~= pdv.take(i).push(vid));
    // old edges persist, and key membership extends
    assert forall|u: Seq<char>, w: Seq<char>| g0.edge(u, w) implies g.edge(u, w) by {
        let k = choose|k: int|
            0 <= k < g0.nmap@.len() && (#[trigger] g0.nmap@[k]).id@ == u && g0.nmap@[k]
                .nbs().contains(w);
        assert(g.nmap@[k].id@ == u && g.nmap@[k].nbs().contains(w));
    }
    assert forall|u: Seq<char>| g0.contains_key(u) implies g.contains_key(u) by {
        let k = choose|k: int| 0 <= k < g0.keys().len() && g0.keys()[k] == u;
        assert(g.keys()[k] == u);
    }
    // well-formedness of the extended graph
    assert forall|p: int, v2: Seq<char>|
        0 <= p < n && #[trigger] g.nmap@[p].nbs().contains(v2) implies g.contains_key(v2) by {
        if p < n - 1 {
            assert(g0.nmap@[p].nbs().contains(v2));
            assert(g0.contains_key(v2));
        } else {
            let x = choose|x: int| 0 <= x < vedv.len() && vedv[x] == v2;
            assert(g0.contains_key(v2));
        }
    }
    assert(g.wf());
    // no vertex of the grown graph is isolated
    assert(g.edge(vid, vedv[0]));
    assert forall|u: Seq<char>| g.contains_key(u) implies exists|w: Seq<char>|
        #[trigger] g.undirected(u).contains(w) by {
        if u == vid {
            assert(g.undirected(u).contains(vedv[0]));
        } else {
            let k = choose|k: int| 0 <= k < g.keys().len() && g.keys()[k] == u;
            assert(k < n - 1);
            assert(g0.contains_key(u));
            if g0.nmap@.len() >= 2 {
                let w = choose|w: Seq<char>| #[trigger] g0.undirected(u).contains(w);
                assert(g.undirected(u).contains(w));
            } else {
                // the lone seed vertex is dialed by the first attached one
                assert(g0.nmap@[0].id@ == u);
                assert(vedv[0] == u);
                assert(g.edge(vid, u));
                assert(g.undirected(u).contains(vid));
            }
        }
    }
}

/// Whether `x`'s value occurs in `v`.
pub fn contains_id(v: &Vec<PeerId>, x: &PeerId) -> (r: bool)
    ensures
        r == v.deep_view().contains(x@),
{
    let mut i: usize = 0;
    while i < v.len()
        invariant
            i <= v@.len(),
            forall|j: int| 0 <= j < i ==> v.deep_view()[j] != x@,
        decreases v@.len() - i,
    {
        if v[i] == *x {
            assert(v.deep_view()[i as int] == x@);
            return true;
        }
        i = i + 1;
    }
    false
}

} // verus!
