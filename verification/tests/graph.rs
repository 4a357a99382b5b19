use cmesh::graph::{complete_graph, local_attachment_model, spanning_tree, PeerGraph};

fn to_peer_ids_vec(ids: std::ops::Range<usize>) -> Vec<String> {
    ids.into_iter().map(|x| x.to_string()).collect()
}

fn neighbors_of<'a>(graph: &'a PeerGraph, id: &str) -> Option<&'a Vec<String>> {
    for e in graph.nmap.iter() {
        if e.id == id {
            return Some(&e.neighbors);
        }
    }
    None
}

fn has_edge(graph: &PeerGraph, u: &str, v: &str) -> bool {
    match neighbors_of(graph, u) {
        Some(ns) => ns.iter().any(|x| x == v),
        None => false,
    }
}

fn same_set(actual: &Vec<String>, expected: Vec<String>) -> bool {
    actual.len() == expected.len() && expected.iter().all(|e| actual.iter().any(|a| a == e))
}

#[test]
fn test_complete_graph() {
    let peers = to_peer_ids_vec(0..10);
    let graph = complete_graph(&peers);
    assert_eq!(graph.nmap.len(), 10);
    for u in &peers {
        for v in &peers {
            assert!(u == v || has_edge(&graph, u, v) || has_edge(&graph, v, u));
        }
    }
}

#[test]
fn graph_test_complete_graph() {
    let peers = to_peer_ids_vec(0..10);
    let graph = complete_graph(&peers);
    assert_eq!(graph.nmap.len(), 10);
    for u in &peers {
        for v in &peers {
            assert!(u == v || has_edge(&graph, u, v) || has_edge(&graph, v, u));
        }
    }
}

#[test]
pub fn test_spanning_tree() {
    let peers = to_peer_ids_vec(0..10);
    let graph = spanning_tree(&peers, 3);
    let mut unconnected: Vec<String> = peers.clone();
    for e in graph.nmap.iter() {
        assert!(e.neighbors.len() <= 3);
        let before = unconnected.len();
        unconnected.retain(|x| x != &e.id);
        assert!(unconnected.len() == before - 1);
    }
    assert_eq!(unconnected.len(), 0);
    assert!(same_set(neighbors_of(&graph, "0").unwrap(), to_peer_ids_vec(1..4)));
    assert!(same_set(neighbors_of(&graph, "1").unwrap(), to_peer_ids_vec(4..7)));
    assert!(same_set(neighbors_of(&graph, "2").unwrap(), to_peer_ids_vec(7..10)));
    for i in 3..10 {
        assert!(neighbors_of(&graph, &i.to_string()).unwrap().is_empty());
    }
}

#[test]
pub fn graph_test_spanning_tree() {
    let peers = to_peer_ids_vec(0..10);
    let graph = spanning_tree(&peers, 3);
    let mut unconnected: Vec<String> = peers.clone();
    for e in graph.nmap.iter() {
        assert!(e.neighbors.len() <= 3);
        let before = unconnected.len();
        unconnected.retain(|x| x != &e.id);
        assert!(unconnected.len() == before - 1);
    }
    assert_eq!(unconnected.len(), 0);
    assert!(same_set(neighbors_of(&graph, "0").unwrap(), to_peer_ids_vec(1..4)));
    assert!(same_set(neighbors_of(&graph, "1").unwrap(), to_peer_ids_vec(4..7)));
    assert!(same_set(neighbors_of(&graph, "2").unwrap(), to_peer_ids_vec(7..10)));
    for i in 3..10 {
        assert!(neighbors_of(&graph, &i.to_string()).unwrap().is_empty());
    }
}

#[test]
fn test_spanning_tree_empty() {
    let graph = spanning_tree(&Vec::new(), 3);
    assert_eq!(graph.nmap.len(), 0);
}

#[test]
fn test_undirected_links_both_directions() {
    // "9" dials everything sorted before it; "0" dials nothing, yet its
    // undirected neighborhood covers every other vertex.
    let peers = to_peer_ids_vec(0..4);
    let graph = complete_graph(&peers);
    let links0 = graph.undirected_links(&"0".to_string()).unwrap();
    assert!(same_set(&links0, to_peer_ids_vec(1..4)));
    let links3 = graph.undirected_links(&"3".to_string()).unwrap();
    assert!(same_set(&links3, to_peer_ids_vec(0..3)));
}

#[test]
fn test_undirected_links_missing_vertex() {
    let peers = to_peer_ids_vec(0..4);
    let graph = complete_graph(&peers);
    assert!(graph.undirected_links(&"missing".to_string()).is_none());
}

#[test]
fn test_local_attachment_model_connects_everyone() {
    let peers = to_peer_ids_vec(0..30);
    let graph = local_attachment_model(&peers, 4);
    assert_eq!(graph.nmap.len(), 30);
    for p in &peers {
        // every id is a key, and nobody is isolated
        let links = graph.undirected_links(p).unwrap();
        assert!(!links.is_empty());
        // every neighbor is itself a key
        for n in neighbors_of(&graph, p).unwrap() {
            assert!(neighbors_of(&graph, n).is_some());
        }
    }
}

#[test]
fn test_local_attachment_model_single_seed() {
    let peers = to_peer_ids_vec(0..5);
    let graph = local_attachment_model(&peers, 1);
    assert_eq!(graph.nmap.len(), 5);
    for p in &peers {
        assert!(!graph.undirected_links(p).unwrap().is_empty());
    }
}

#[test]
fn test_graph_to_dot() {
    let peers = vec!["peer1_ab".to_string(), "peer2_cd".to_string()];
    let graph = complete_graph(&peers);
    // descending order: peer2 enters first, then peer1 dialing it
    assert_eq!(graph.to_dot(), "digraph G {\n  1 -> 2;\n}\n");
}

#[test]
fn test_empty_graph_to_dot() {
    let graph = PeerGraph::new();
    assert_eq!(graph.to_dot(), "digraph G {\n}\n");
}
