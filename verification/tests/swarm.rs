use gossipping::components::{find_components, largest_component};
use gossipping::graph::{Adjacency, NodeSet};
use gossipping::ranking::{descending_order, top_betweenness};
use gossipping::suggestions::{
    analyze_topology, sort_suggestions, suggest_peers, IsolationScore, PeerSuggestion,
};
use gossipping::topology::{build_graph, PeerStatus, SwarmSnapshot};
use gossipping::traversal::{bfs_component, shortest_paths};

fn names(list: &[&str]) -> Vec<String> {
    list.iter().map(|s| s.to_string()).collect()
}

fn peer(id: &str, neighbors: &[&str], stale: bool) -> PeerStatus {
    PeerStatus { node_id: id.to_string(), neighbors: names(neighbors), stale }
}

fn undirected(nodes: &[&str], edges: &[(&str, &str)]) -> Adjacency {
    let mut adj = Adjacency::new();
    for n in nodes {
        adj.add_node(n);
    }
    for (a, b) in edges {
        adj.add_edge(a, b);
        adj.add_edge(b, a);
    }
    adj
}

fn set(list: &[&str]) -> NodeSet {
    let mut s = NodeSet::new();
    for n in list {
        s.insert(n);
    }
    s
}

fn neighbors(adj: &Adjacency, n: &str) -> Vec<String> {
    match adj.neighbors(n) {
        Some(s) => s.to_vec(),
        None => Vec::new(),
    }
}

#[test]
fn node_set_holds_each_name_once() {
    let mut s = NodeSet::new();
    assert!(s.insert("a"));
    assert!(s.insert("b"));
    assert!(!s.insert("a"));
    assert_eq!(s.len(), 2);
    assert!(s.contains("b"));
    assert!(!s.contains("c"));
    assert_eq!(s.get(1), "b");
    assert_eq!(s.to_vec(), names(&["a", "b"]));
}

#[test]
fn adjacency_keeps_nodes_and_edges() {
    let adj = undirected(&["a", "b", "c"], &[("a", "b"), ("a", "b")]);
    assert_eq!(adj.node_names(), &names(&["a", "b", "c"]));
    assert_eq!(neighbors(&adj, "a"), names(&["b"]));
    assert_eq!(neighbors(&adj, "b"), names(&["a"]));
    assert_eq!(neighbors(&adj, "c"), names(&[]));
    assert!(adj.neighbors("d").is_none());
}

#[test]
fn bfs_component_visits_near_nodes_first() {
    let adj = undirected(&["a", "b", "c", "d", "e"], &[("a", "b"), ("b", "c"), ("a", "d")]);
    let mut visited = NodeSet::new();
    assert_eq!(bfs_component("a", &adj, &mut visited), names(&["a", "b", "d", "c"]));
    assert!(visited.contains("c"));
    assert!(!visited.contains("e"));
}

#[test]
fn bfs_component_stays_out_of_visited_nodes() {
    let adj = undirected(&["a", "b", "c"], &[("a", "b"), ("b", "c")]);
    let mut visited = set(&["b"]);
    assert_eq!(bfs_component("a", &adj, &mut visited), names(&["a"]));
    assert_eq!(visited.to_vec(), names(&["b", "a"]));
}

#[test]
fn bfs_component_of_an_unknown_start_is_the_start() {
    let adj = undirected(&["a"], &[]);
    let mut visited = NodeSet::new();
    assert_eq!(bfs_component("x", &adj, &mut visited), names(&["x"]));
}

#[test]
fn shortest_paths_of_a_square() {
    let adj = undirected(
        &["s", "l", "r", "t"],
        &[("s", "l"), ("s", "r"), ("l", "t"), ("r", "t")],
    );
    let p = shortest_paths("s", &adj);
    assert_eq!(p.order, names(&["s", "l", "r", "t"]));
    assert_eq!(p.dist, vec![0, 1, 1, 2]);
    assert_eq!(p.predecessors, vec![vec![], vec![0], vec![0], vec![1, 2]]);
}

#[test]
fn components_are_disjoint_and_cover() {
    let adj = undirected(&["a", "b", "c", "d", "e"], &[("a", "c"), ("b", "d"), ("d", "e")]);
    let comps = find_components(&adj);
    assert_eq!(comps, vec![names(&["a", "c"]), names(&["b", "d", "e"])]);
    assert_eq!(largest_component(&comps), 1);
}

#[test]
fn the_last_of_the_largest_components_counts() {
    let comps = vec![names(&["a", "b"]), names(&["c"]), names(&["d", "e"])];
    assert_eq!(largest_component(&comps), 2);
}

#[test]
fn build_graph_links_active_peers_both_ways() {
    let snapshot = SwarmSnapshot {
        peers: vec![
            peer("a", &["b", "x", "s"], false),
            peer("b", &[], false),
            peer("s", &["a", "b"], true),
            peer("c", &["a"], false),
        ],
    };
    let adj = build_graph(&snapshot);
    let mut nodes = adj.node_names().clone();
    nodes.sort();
    assert_eq!(nodes, names(&["a", "b", "c"]));
    let mut near = neighbors(&adj, "a");
    near.sort();
    assert_eq!(near, names(&["b", "c"]));
    assert_eq!(neighbors(&adj, "b"), names(&["a"]));
    assert_eq!(neighbors(&adj, "c"), names(&["a"]));
}

#[test]
fn build_graph_of_stale_peers_is_empty() {
    let snapshot = SwarmSnapshot { peers: vec![peer("a", &["a"], true)] };
    let adj = build_graph(&snapshot);
    assert!(adj.node_names().is_empty());
    assert!(analyze_topology(&adj, &vec![]).is_empty());
}

#[test]
fn descending_order_is_stable() {
    assert_eq!(descending_order(&vec![3, 9, 3, 7]), vec![1, 3, 0, 2]);
    assert_eq!(descending_order(&vec![]), Vec::<usize>::new());
}

#[test]
fn top_betweenness_takes_the_best() {
    let all = names(&["a", "b", "c", "d"]);
    let keys = vec![5, 8, 1, 8];
    assert_eq!(top_betweenness(&all, &keys, &set(&[]), 3), names(&["b", "d", "a"]));
    assert_eq!(top_betweenness(&all, &keys, &set(&["b", "c"]), 3), names(&["d", "a"]));
    assert_eq!(top_betweenness(&all, &keys, &set(&[]), 0), names(&[]));
}

#[test]
fn top_betweenness_ranks_float_bits() {
    let all = names(&["a", "b", "c"]);
    let scores: [f64; 3] = [0.5, 12.25, 0.0];
    let keys: Vec<u64> = scores.iter().map(|s| s.to_bits()).collect();
    assert_eq!(top_betweenness(&all, &keys, &set(&[]), 2), names(&["b", "a"]));
}

fn summary(list: &[PeerSuggestion]) -> Vec<(String, Vec<String>, String, IsolationScore)> {
    list.iter()
        .map(|s| {
            (
                s.target_node_id.clone(),
                s.suggested_peers.clone(),
                s.reason.clone(),
                s.isolation_score,
            )
        })
        .collect()
}

#[test]
fn a_single_node_has_low_connectivity() {
    let adj = undirected(&["a"], &[]);
    let list = analyze_topology(&adj, &vec![0]);
    assert_eq!(
        summary(&list),
        vec![("a".into(), names(&[]), "low_connectivity".into(), IsolationScore::Full)]
    );
}

#[test]
fn outsiders_and_loose_nodes_get_suggestions() {
    // a path a-b-c-d and a pair x-y
    let adj = undirected(
        &["a", "b", "c", "d", "x", "y"],
        &[("a", "b"), ("b", "c"), ("c", "d"), ("x", "y")],
    );
    let keys = vec![0, 2, 2, 0, 0, 0];
    let list = analyze_topology(&adj, &keys);
    let clique = names(&["b", "c", "a"]);
    assert_eq!(
        summary(&list),
        vec![
            ("x".into(), clique.clone(), "isolated_clique".into(), IsolationScore::Full),
            ("y".into(), clique, "isolated_clique".into(), IsolationScore::Full),
            ("a".into(), names(&["c", "d", "x"]), "low_connectivity".into(), IsolationScore::Half),
            ("d".into(), names(&["b", "a", "x"]), "low_connectivity".into(), IsolationScore::Half),
        ]
    );
}

#[test]
fn a_clique_at_the_end_of_a_chain_is_isolated() {
    // a triangle p-q-r whose corner r leads to a long chain
    let chain: Vec<String> = (0..10).map(|i| format!("n{i}")).collect();
    let mut nodes = vec!["p", "q", "r"];
    nodes.extend(chain.iter().map(|s| s.as_str()));
    let mut edges = vec![("p", "q"), ("q", "r"), ("p", "r"), ("r", "n0")];
    for i in 1..10 {
        edges.push((chain[i - 1].as_str(), chain[i].as_str()));
    }
    let adj = undirected(&nodes, &edges);
    let keys = vec![0; nodes.len()];
    let list = analyze_topology(&adj, &keys);
    let p = list.iter().find(|s| s.target_node_id == "p").unwrap();
    assert_eq!(p.reason, "isolated_clique");
    assert_eq!(p.suggested_peers, names(&["n0", "n1", "n2"]));
    assert_eq!(
        p.isolation_score,
        IsolationScore::Clustered { edges: 1, max_edges: 1, two_hop: 1, others: 12 }
    );
    // r has the neighbors p, q and n0, of which one pair in three is linked
    assert!(list.iter().all(|s| s.target_node_id != "r"));
    assert!(list.iter().any(|s| s.target_node_id == "n9" && s.reason == "low_connectivity"));
}

#[test]
fn a_dense_node_with_much_in_reach_gets_no_suggestion() {
    // p and q are linked to each other and to r, which is linked to all others
    let adj = undirected(
        &["p", "q", "r", "a", "b"],
        &[("p", "q"), ("p", "r"), ("q", "r"), ("r", "a"), ("r", "b"), ("a", "b")],
    );
    let list = analyze_topology(&adj, &vec![0; 5]);
    // two of the four others lie two hops away
    assert!(list.iter().all(|s| s.target_node_id != "p"));
}

#[test]
fn suggestions_propose_new_links() {
    let adj = undirected(
        &["a", "b", "c", "d", "e", "f", "g"],
        &[("a", "b"), ("b", "c"), ("c", "a"), ("c", "d"), ("e", "f")],
    );
    let keys = vec![1, 2, 9, 4, 5, 6, 7];
    let list = analyze_topology(&adj, &keys);
    let mut targets: Vec<&String> = list.iter().map(|s| &s.target_node_id).collect();
    targets.sort();
    targets.dedup();
    assert_eq!(targets.len(), list.len());
    for s in &list {
        assert!(s.suggested_peers.len() <= 3);
        for p in &s.suggested_peers {
            assert!(adj.node_names().contains(p));
            assert_ne!(p, &s.target_node_id);
            assert!(!neighbors(&adj, &s.target_node_id).contains(p));
        }
    }
    for outsider in ["e", "f", "g"] {
        let s = list.iter().find(|s| s.target_node_id == outsider).unwrap();
        assert_eq!(s.suggested_peers, names(&["c", "d", "b"]));
    }
}

#[test]
fn suggest_peers_takes_the_given_main_component() {
    let adj = undirected(&["a", "b"], &[]);
    let comps = vec![names(&["a"]), names(&["b"])];
    let list = suggest_peers(&adj, &vec![0, 0], &comps, 0);
    assert_eq!(
        summary(&list),
        vec![
            ("b".into(), names(&["a"]), "isolated_clique".into(), IsolationScore::Full),
            ("a".into(), names(&["b"]), "low_connectivity".into(), IsolationScore::Full),
        ]
    );
}

#[test]
fn sort_suggestions_puts_the_greatest_first() {
    let adj = undirected(&["a", "b", "c"], &[("a", "b"), ("b", "c")]);
    let list = analyze_topology(&adj, &vec![0, 1, 0]);
    assert_eq!(list.len(), 2);
    let sorted = sort_suggestions(&list, &vec![1, 5]);
    assert_eq!(sorted[0].target_node_id, "c");
    assert_eq!(sorted[1].target_node_id, "a");
    let same = sort_suggestions(&list, &vec![4, 4]);
    assert_eq!(summary(&same), summary(&list));
}

fn findings(peers: Vec<PeerStatus>) -> Vec<(String, String, String)> {
    let adj = build_graph(&SwarmSnapshot { peers });
    let keys: Vec<u64> = (0..adj.node_names().len() as u64).collect();
    let mut list: Vec<(String, String, String)> = analyze_topology(&adj, &keys)
        .iter()
        .map(|s| {
            (s.target_node_id.clone(), s.reason.clone(), format!("{:?}", s.isolation_score))
        })
        .collect();
    list.sort();
    list
}

fn swarm() -> Vec<PeerStatus> {
    vec![
        peer("p", &["q", "r"], false),
        peer("q", &["r"], false),
        peer("r", &["a"], false),
        peer("a", &["b"], false),
        peer("b", &["c"], false),
        peer("c", &["d"], false),
        peer("d", &["e"], false),
        peer("e", &["f"], false),
        peer("f", &[], false),
        peer("x", &["y"], false),
        peer("y", &[], false),
    ]
}

#[test]
fn order_and_reporting_side_do_not_matter() {
    let expected = findings(swarm());
    assert!(expected.iter().any(|f| f.2.starts_with("Clustered")));
    let mut reversed = swarm();
    reversed.reverse();
    assert_eq!(findings(reversed), expected);
    let turned = vec![
        peer("f", &["e"], false),
        peer("y", &["x"], false),
        peer("x", &["y"], false),
        peer("r", &["q", "p"], false),
        peer("q", &["p"], false),
        peer("p", &[], false),
        peer("a", &["r"], false),
        peer("c", &["b", "d"], false),
        peer("b", &["a"], false),
        peer("d", &["e"], false),
        peer("e", &["d"], false),
    ];
    assert_eq!(findings(turned), expected);
}

#[test]
fn stale_peers_and_unknown_links_do_not_matter() {
    let expected = findings(swarm());
    let mut cluttered = swarm();
    cluttered[0].neighbors.push("nobody".to_string());
    cluttered[9].neighbors.insert(0, "old".to_string());
    cluttered.insert(3, peer("old", &["p", "x", "f"], true));
    cluttered.push(peer("older", &["old"], true));
    assert_eq!(findings(cluttered), expected);
}
